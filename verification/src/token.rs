//! The lexical events that the tree builder consumes, and the tokenizer that
//! yields them for a document.

use vstd::prelude::*;
use xmlparser::{ElementEnd, Error as LexError, Token, Tokenizer};

verus! {

/// How an element-end event ends the element.
#[derive(Clone, Copy, Debug, PartialEq, Eq, Structural)]
pub enum EndKind {
    /// The `>` that ends a start tag: the element stays open.
    Open,
    /// A closing tag.
    Close,
    /// The `/>` of an element without content.
    Empty,
}

/// One lexical event, with local names only.
#[derive(Debug)]
pub enum XmlToken {
    ElementStart { local: String },
    Attribute { local: String, value: String },
    ElementEnd { end: EndKind },
    Text { text: String },
    /// A declaration, comment, processing instruction, part of a document type
    /// or a character-data section: the builder passes over it.
    Other,
}

/// The mathematical value of a lexical event.
pub ghost enum Event {
    ElementStart { local: Seq<char> },
    Attribute { local: Seq<char>, value: Seq<char> },
    ElementEnd { end: EndKind },
    Text { text: Seq<char> },
    Other,
}

impl XmlToken {
    /// The value of this event.
    pub open spec fn view(&self) -> Event {
        match self {
            XmlToken::ElementStart { local } => Event::ElementStart { local: local@ },
            XmlToken::Attribute { local, value } => Event::Attribute {
                local: local@,
                value: value@,
            },
            XmlToken::ElementEnd { end } => Event::ElementEnd { end: *end },
            XmlToken::Text { text } => Event::Text { text: text@ },
            XmlToken::Other => Event::Other,
        }
    }
}

impl Clone for XmlToken {
    fn clone(&self) -> (r: Self)
        ensures
            r@ == self@,
    {
        match self {
            XmlToken::ElementStart { local } => XmlToken::ElementStart { local: local.clone() },
            XmlToken::Attribute { local, value } => XmlToken::Attribute {
                local: local.clone(),
                value: value.clone(),
            },
            XmlToken::ElementEnd { end } => XmlToken::ElementEnd { end: *end },
            XmlToken::Text { text } => XmlToken::Text { text: text.clone() },
            XmlToken::Other => XmlToken::Other,
        }
    }
}

/// The value of an item of the token stream: an event or a lexical error.
pub open spec fn item_view(item: Result<XmlToken, LexError>) -> Result<
    Event,
    LexError,
> {
    match item {
        Ok(token) => Ok(token@),
        Err(error) => Err(error),
    }
}

/// The values of a list of items.
pub open spec fn items_view(items: Seq<Result<XmlToken, LexError>>) -> Seq<
    Result<Event, LexError>,
> {
    Seq::new(items.len(), |i: int| item_view(items[i]))
}

/// `xmlparser::Tokenizer`, the iterator over the tokens of a document. Nothing
/// is known of a value of it but what `pending` names.
#[verifier::external_type_specification]
#[verifier::external_body]
pub struct ExTokenizer<'a>(Tokenizer<'a>);

/// `xmlparser::Token`, the item that the tokenizer yields. It is declared
/// because the tokenizer's iterator names it; no verified code holds one.
#[verifier::external_type_specification]
#[verifier::external_body]
pub struct ExToken<'a>(Token<'a>);

/// `xmlparser::Error`, the tokenizer's error with its position. It is carried
/// through as it came; nothing is known of what is in it.
#[verifier::external_type_specification]
#[verifier::external_body]
pub struct ExLexicalError(LexError);

/// The items that `xmlparser::Tokenizer` yields for the document `doc`, in
/// order: its tokens, and last its error where it stops on one.
pub uninterp spec fn lexed(doc: Seq<char>) -> Seq<Result<Event, LexError>>;

/// The items that a tokenizer has yet to yield.
pub uninterp spec fn pending(tokens: Tokenizer) -> Seq<Result<Event, LexError>>;

/// Calls `xmlparser::Tokenizer::from`, which sets a tokenizer at the start of
/// `doc`. All that the tokenizer will yield is named `lexed(doc@)`.
#[verifier::external_body]
pub(crate) fn tokenizer<'a>(doc: &'a str) -> (tokens: Tokenizer<'a>)
    ensures
        pending(tokens) == lexed(doc@),
{
    Tokenizer::from(doc)
}

/// Calls `next` on an `xmlparser::Tokenizer` and copies the token it yields
/// into an `XmlToken`: the local name of an element start, the local name and
/// value of an attribute, the kind of an element end, the run of a text. The
/// tokenizer hands out its pending items one by one, and `None` when none is
/// left.
#[verifier::external_body]
pub(crate) fn next_token(tokens: &mut Tokenizer) -> (r: Option<
    Result<XmlToken, LexError>,
>)
    ensures
        match r {
            Some(item) => pending(*old(tokens)).len() > 0 && item_view(item) == pending(
                *old(tokens),
            ).first() && pending(*final(tokens)) == pending(*old(tokens)).drop_first(),
            None => pending(*old(tokens)).len() == 0 && pending(*final(tokens)).len() == 0,
        },
{
    tokens.next().map(|item| item.map(|token| match token {
        Token::ElementStart { local, .. } => XmlToken::ElementStart { local: local.to_string() },
        Token::Attribute { local, value, .. } => XmlToken::Attribute { local: local.to_string(), value: value.to_string() },
        Token::ElementEnd { end: ElementEnd::Open, .. } => XmlToken::ElementEnd { end: EndKind::Open },
        Token::ElementEnd { end: ElementEnd::Close(..), .. } => XmlToken::ElementEnd { end: EndKind::Close },
        Token::ElementEnd { end: ElementEnd::Empty, .. } => XmlToken::ElementEnd { end: EndKind::Empty },
        Token::Text { text } => XmlToken::Text { text: text.to_string() },
        _ => XmlToken::Other,
    }))
}

} // verus!
