//! Scanning a document without building anything: whether its tokens can be
//! read to the end.

use vstd::prelude::*;
use crate::model::Fault;
use crate::parser::Error;
use crate::token::{Event, XmlToken, lexed, next_token, pending, tokenizer};

verus! {

/// The first lexical error among `items`, if there is one.
pub open spec fn first_error(items: Seq<Result<Event, xmlparser::Error>>) -> Option<
    xmlparser::Error,
>
    decreases items.len(),
{
    if items.len() == 0 {
        None
    } else {
        match items.first() {
            Err(error) => Some(error),
            Ok(_) => first_error(items.drop_first()),
        }
    }
}

/// Passes over one item of the token stream: an event of any kind is
/// accepted, a lexical error is handed back.
pub fn process_tokens(token: Result<XmlToken, xmlparser::Error>) -> (r: Result<(), Error>)
    ensures
        match token {
            Ok(_) => r is Ok,
            Err(error) => r is Err && r->Err_0@ == Fault::Lexical(error),
        },
{
    match token {
        Ok(_) => Ok(()),
        Err(error) => Err(Error::from(error)),
    }
}

/// Reads the tokens of `doc` to the end, and hands back the first lexical
/// error if there is one.
pub fn scan(doc: &str) -> (r: Result<(), Error>)
    ensures
        match first_error(lexed(doc@)) {
            None => r is Ok,
            Some(error) => r is Err && r->Err_0@ == Fault::Lexical(error),
        },
{
    let mut tokens = tokenizer(doc);
    loop
        invariant
            first_error(pending(tokens)) == first_error(lexed(doc@)),
        decreases pending(tokens).len(),
    {
        match next_token(&mut tokens) {
            None => {
                return Ok(());
            },
            Some(token) => {
                match process_tokens(token) {
                    Ok(()) => {},
                    Err(error) => {
                        return Err(error);
                    },
                }
            },
        }
    }
}

} // verus!
