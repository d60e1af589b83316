use xmlo3::parser::parse_tokens;
use xmlo3::text::{join, str_eq};
use xmlo3::token::{EndKind, XmlToken};

fn white_space(c: char) -> bool {
    let n = c as u32;
    (0x09..=0x0D).contains(&n)
        || n == 0x20
        || n == 0x85
        || n == 0xA0
        || n == 0x1680
        || (0x2000..=0x200A).contains(&n)
        || n == 0x2028
        || n == 0x2029
        || n == 0x202F
        || n == 0x205F
        || n == 0x3000
}

fn kept_text(run: String) -> Option<String> {
    let tokens = vec![
        Ok(XmlToken::ElementStart { local: "r".to_string() }),
        Ok(XmlToken::ElementStart { local: "t".to_string() }),
        Ok(XmlToken::Text { text: run }),
        Ok(XmlToken::ElementEnd { end: EndKind::Close }),
        Ok(XmlToken::ElementEnd { end: EndKind::Close }),
    ];
    let out = parse_tokens(tokens).unwrap();
    match out[1].get("t") {
        Some(xmlo3::tree::RecursiveHashMap::Value(text)) => Some(text.clone()),
        None => None,
        other => panic!("{:?}", other),
    }
}

#[test]
fn join_puts_the_delimiter_between_runs() {
    assert_eq!(join(&vec![], "|"), "");
    assert_eq!(join(&vec!["a".to_string()], "|"), "a");
    assert_eq!(join(&vec!["a".to_string(), "b".to_string(), "c".to_string()], "|"), "a|b|c");
    assert_eq!(join(&vec!["".to_string(), "".to_string()], "--"), "--");
    assert_eq!(join(&vec![".".to_string(), "id".to_string()], ""), ".id");
}

#[test]
fn str_eq_compares_characters() {
    assert!(str_eq("", ""));
    assert!(str_eq("$key", "$key"));
    assert!(!str_eq("$key", "$kez"));
    assert!(!str_eq("a", "ab"));
    assert!(!str_eq("ab", "a"));
    assert!(str_eq("héllo", "héllo"));
    assert!(!str_eq("héllo", "hello"));
}

#[test]
fn text_is_trimmed_at_both_ends_only() {
    assert_eq!(kept_text("  a  b \n".to_string()), Some("a  b".to_string()));
    assert_eq!(kept_text("\u{a0}x\u{2003}".to_string()), Some("x".to_string()));
    assert_eq!(kept_text("x".to_string()), Some("x".to_string()));
    assert_eq!(kept_text("\u{200b}".to_string()), Some("\u{200b}".to_string()));
    assert_eq!(kept_text(" \t\r\n".to_string()), None);
    assert_eq!(kept_text(String::new()), None);
}

#[test]
fn exactly_the_white_space_characters_are_trimmed() {
    for n in 0..=0x10FFFFu32 {
        if let Some(c) = char::from_u32(n) {
            let alone = kept_text(c.to_string());
            let framed = kept_text(format!("{}x{}", c, c));
            if white_space(c) {
                assert_eq!(alone, None, "U+{:04X}", n);
                assert_eq!(framed, Some("x".to_string()), "U+{:04X}", n);
            } else {
                assert_eq!(alone, Some(c.to_string()), "U+{:04X}", n);
                assert_eq!(framed, Some(format!("{}x{}", c, c)), "U+{:04X}", n);
            }
        }
    }
}
