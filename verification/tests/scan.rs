use xmlo3::parser::Error;
use xmlo3::scan::{process_tokens, scan};
use xmlo3::token::XmlToken;

#[test]
fn scan_accepts_a_document_that_tokenizes() {
    assert!(scan("<?xml version='1.0'?><a x='1'><!-- c --><b>t</b></a>").is_ok());
    assert!(scan("").is_ok());
}

#[test]
fn scan_reports_the_first_lexical_error() {
    match scan("<a><b></b") {
        Err(Error::ParserError(error)) => assert_eq!(error.pos().row, 1),
        other => panic!("{:?}", other),
    }
    assert!(matches!(scan("<a x=1/>"), Err(Error::ParserError(_))));
}

#[test]
fn process_tokens_passes_events_and_hands_errors_back() {
    assert!(process_tokens(Ok(XmlToken::Other)).is_ok());
    assert!(process_tokens(Ok(XmlToken::Text { text: "t".to_string() })).is_ok());
    let error = xmlparser::Error::UnknownToken(xmlparser::TextPos::new(4, 2));
    assert!(matches!(process_tokens(Err(error)), Err(Error::ParserError(got)) if got == error));
}
