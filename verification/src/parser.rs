//! The tree builder: a handler that consumes lexical events one by one, and the
//! functions that run it over a token list or over a document.

use vstd::prelude::*;
use vstd::std_specs::convert::FromSpecImpl;
use crate::model::{Builder, Fault, Frame, built, merged};
use crate::text::{join, trim};
use crate::token::{
    EndKind, Event, XmlToken, item_view, items_view, lexed, next_token, pending, tokenizer,
};
use crate::tree::{Mapping, RecursiveHashMap, Tree, mappings_view};

verus! {

/// Why building a tree failed.
#[derive(Debug)]
pub enum Error {
    /// The token source could not tokenize the input; its error is kept as it
    /// came.
    ParserError(xmlparser::Error),
    /// The events are not well formed, for the given reason.
    MalformedXml(&'static str),
}

impl Error {
    /// The fault that this error reports.
    pub open spec fn view(&self) -> Fault {
        match self {
            Error::ParserError(error) => Fault::Lexical(*error),
            Error::MalformedXml(reason) => Fault::Malformed(reason@),
        }
    }
}

impl From<xmlparser::Error> for Error {
    fn from(value: xmlparser::Error) -> (r: Self) {
        Error::ParserError(value)
    }
}

impl FromSpecImpl<xmlparser::Error> for Error {
    open spec fn obeys_from_spec() -> bool {
        true
    }

    open spec fn from_spec(value: xmlparser::Error) -> Self {
        Error::ParserError(value)
    }
}

/// What a closed element with the joined text `text` and the entries `nested`
/// hands to its parent.
pub fn merge(text: String, nested: Mapping) -> (r: Option<RecursiveHashMap>)
    ensures
        match merged(text@, nested@) {
            Some(tree) => r is Some && r->Some_0@ == tree,
            None => r is None,
        },
{
    let mut nested = nested;
    let no_text = text.as_str().is_empty();
    if nested.is_empty() {
        if no_text {
            None
        } else {
            Some(RecursiveHashMap::Value(text))
        }
    } else {
        if !no_text {
            nested.insert("..cdata".to_owned(), RecursiveHashMap::Value(text));
        }
        Some(RecursiveHashMap::Object(nested))
    }
}

/// The builder's state: the open elements, the text runs of each, and the
/// finished roots.
#[derive(Debug)]
pub struct TokenHanlder {
    element_stack: Vec<Mapping>,
    text_stack: Vec<Vec<String>>,
    body: Vec<Mapping>,
}

impl TokenHanlder {
    /// The two stacks are aligned, and every open element carries its name.
    pub closed spec fn wf(&self) -> bool {
        &&& self.element_stack@.len() == self.text_stack@.len()
        &&& self@.wf()
    }

    /// The state as a mathematical value.
    pub closed spec fn view(&self) -> Builder {
        Builder {
            stack: Seq::new(
                self.element_stack@.len(),
                |i: int|
                    Frame {
                        fields: self.element_stack@[i]@,
                        runs: self.text_stack@[i].deep_view(),
                    },
            ),
            results: mappings_view(self.body@),
        }
    }

    /// In a well-formed handler every open element carries its name entry.
    pub proof fn lemma_wf(&self)
        requires
            self.wf(),
        ensures
            self@.wf(),
    {
    }

    /// A handler that has seen no event.
    pub fn new() -> (r: Self)
        ensures
            r.wf(),
            r@ == Builder::empty(),
    {
        let r = TokenHanlder {
            element_stack: Vec::new(),
            text_stack: Vec::new(),
            body: Vec::new(),
        };
        assert(r@.stack =~= Seq::<Frame>::empty());
        assert(r@.results =~= Seq::<Map<Seq<char>, Tree>>::empty());
        r
    }

    /// Opens an element named `local`.
    pub fn handle_elem_start(&mut self, local: &str)
        requires
            old(self).wf(),
        ensures
            final(self).wf(),
            final(self)@ == old(self)@.start(local@),
    {
        let mut frame = Mapping::new();
        frame.insert("$key".to_owned(), RecursiveHashMap::Value(local.to_owned()));
        assert(frame@ =~= map!["$key"@ => Tree::Value(local@)]);
        self.element_stack.push(frame);
        let runs: Vec<String> = Vec::new();
        assert(runs.deep_view() =~= Seq::<Seq<char>>::empty());
        self.text_stack.push(runs);
        assert(self@.stack =~= old(self)@.start(local@).stack);
    }

    /// Closes the innermost open element and hands it to its parent, or to the
    /// results where it is a root. After a failure the element is discarded.
    pub fn handle_close_empty(&mut self) -> (r: Result<(), Error>)
        requires
            old(self).wf(),
        ensures
            final(self).wf(),
            match old(self)@.close() {
                Ok(next) => r is Ok && final(self)@ == next,
                Err(reason) => r is Err && r->Err_0@ == Fault::Malformed(reason) && final(self)@
                    == old(self)@.dropped(),
            },
    {
        let mut elem = match self.element_stack.pop() {
            Some(elem) => elem,
            None => {
                return Err(Error::MalformedXml("unmatched close"));
            },
        };
        let text_vec = self.text_stack.pop().unwrap();
        let text = join(&text_vec, "|");
        let stack_depth = self.element_stack.len();
        assert(self@.stack =~= old(self)@.dropped().stack);
        let key = match elem.remove("$key") {
            Some(RecursiveHashMap::Value(key)) => key,
            Some(RecursiveHashMap::Object(_)) => {
                return Err(
                    Error::MalformedXml(
                        if stack_depth == 0 {
                            "Root key must be a string"
                        } else {
                            "$key must be a string"
                        },
                    ),
                );
            },
            None => {
                return Err(
                    Error::MalformedXml(
                        if stack_depth == 0 {
                            "Root element must have a key"
                        } else {
                            "Element must have a key"
                        },
                    ),
                );
            },
        };
        if stack_depth == 0 {
            if self.body.len() == 0 {
                let mut marker = Mapping::new();
                marker.insert("rootTagName".to_owned(), RecursiveHashMap::Value(key));
                assert(marker@ =~= map!["rootTagName"@ => Tree::Value(key@)]);
                self.body.push(marker);
            }
            self.body.push(elem);
            assert(self@.results =~= old(self)@.close()->Ok_0.results);
            assert(self@.stack =~= old(self)@.close()->Ok_0.stack);
        } else {
            match merge(text, elem) {
                None => {},
                Some(node) => {
                    let mut parent = self.element_stack.pop().unwrap();
                    parent.insert(key, node);
                    self.element_stack.push(parent);
                    assert(self@.stack =~= old(self)@.close()->Ok_0.stack);
                },
            }
        }
        Ok(())
    }

    /// An element end: the end of a start tag changes nothing, a closing tag
    /// and the end of an empty element close the innermost open element.
    pub fn handle_elem_end(&mut self, end: EndKind) -> (r: Result<(), Error>)
        requires
            old(self).wf(),
        ensures
            final(self).wf(),
            match old(self)@.step(Event::ElementEnd { end }) {
                Ok(next) => r is Ok && final(self)@ == next,
                Err(reason) => r is Err && r->Err_0@ == Fault::Malformed(reason) && final(self)@
                    == old(self)@.dropped(),
            },
    {
        match end {
            EndKind::Close => self.handle_close_empty(),
            EndKind::Empty => self.handle_close_empty(),
            EndKind::Open => Ok(()),
        }
    }

    /// Stores the trimmed `value` in the innermost open element under the key
    /// of the attribute `local`. After a failure the state is unchanged.
    pub fn handle_attribute(&mut self, local: &str, value: &str) -> (r: Result<(), Error>)
        requires
            old(self).wf(),
        ensures
            final(self).wf(),
            match old(self)@.attribute(local@, value@) {
                Ok(next) => r is Ok && final(self)@ == next,
                Err(reason) => r is Err && r->Err_0@ == Fault::Malformed(reason) && final(self)@
                    == old(self)@,
            },
    {
        let mut elem = match self.element_stack.pop() {
            Some(elem) => elem,
            None => {
                return Err(Error::MalformedXml("attribute outside open element"));
            },
        };
        let key = ".".to_owned().concat(local);
        elem.insert(key, RecursiveHashMap::Value(trim(value).to_owned()));
        self.element_stack.push(elem);
        assert(self@.stack =~= old(self)@.attribute(local@, value@)->Ok_0.stack);
        Ok(())
    }

    /// Appends the trimmed `text` to the runs of the innermost open element,
    /// unless it is empty then or no element is open.
    pub fn handle_text(&mut self, text: &str)
        requires
            old(self).wf(),
        ensures
            final(self).wf(),
            final(self)@ == old(self)@.text(text@),
    {
        let run = trim(text);
        if run.is_empty() {
            return ;
        }
        match self.text_stack.pop() {
            Some(last) => {
                let mut last = last;
                let ghost before = last.deep_view();
                last.push(run.to_owned());
                assert(last.deep_view() =~= before.push(run@));
                self.text_stack.push(last);
                assert(self@.stack =~= old(self)@.text(text@).stack);
            },
            None => {},
        }
    }

    /// Takes one item of the token stream: a lexical error is passed on, an
    /// event is handled by its kind.
    pub fn handle_token(&mut self, token: Result<XmlToken, xmlparser::Error>) -> (r: Result<
        (),
        Error,
    >)
        requires
            old(self).wf(),
        ensures
            final(self).wf(),
            match old(self)@.feed(item_view(token)) {
                Ok(next) => r is Ok && final(self)@ == next,
                Err(fault) => r is Err && r->Err_0@ == fault && final(self)@
                    == old(self)@.after_failure(item_view(token)),
            },
    {
        let token = match token {
            Ok(token) => token,
            Err(error) => {
                return Err(Error::from(error));
            },
        };
        match token {
            XmlToken::ElementStart { local } => {
                self.handle_elem_start(local.as_str());
                Ok(())
            },
            XmlToken::Attribute { local, value } => self.handle_attribute(
                local.as_str(),
                value.as_str(),
            ),
            XmlToken::ElementEnd { end } => self.handle_elem_end(end),
            XmlToken::Text { text } => {
                self.handle_text(text.as_str());
                Ok(())
            },
            XmlToken::Other => Ok(()),
        }
    }

    /// The finished roots.
    pub fn into_body(self) -> (r: Vec<Mapping>)
        ensures
            mappings_view(r@) == self@.results,
    {
        self.body
    }
}

/// Builds the roots of a token list: every item is handled in order, and the
/// first fault ends the run with no result.
pub fn parse_tokens(tokens: Vec<Result<XmlToken, xmlparser::Error>>) -> (r: Result<
    Vec<Mapping>,
    Error,
>)
    ensures
        match built(items_view(tokens@)) {
            Ok(results) => r is Ok && mappings_view(r->Ok_0@) == results,
            Err(fault) => r is Err && r->Err_0@ == fault,
        },
{
    let ghost items = items_view(tokens@);
    let mut handler = TokenHanlder::new();
    assert(items.skip(0) =~= items);
    for token in iter: tokens
        invariant
            iter.seq() == tokens@,
            handler.wf(),
            handler@.run(items.skip(iter.index() as int)) == Builder::empty().run(items),
            items == items_view(tokens@),
    {
        let ghost left = items.skip(iter.index() as int);
        assert(left.first() == item_view(token));
        assert(left.drop_first() =~= items.skip(iter.index() + 1));
        match handler.handle_token(token) {
            Ok(()) => {},
            Err(error) => {
                return Err(error);
            },
        }
    }
    Ok(handler.into_body())
}

/// Builds the roots of the document `doc`: its tokens are handled in order,
/// and the first fault, of the tokenizer or of the builder, ends the run with
/// no result.
pub fn parse(doc: String) -> (r: Result<Vec<Mapping>, Error>)
    ensures
        match built(lexed(doc@)) {
            Ok(results) => r is Ok && mappings_view(r->Ok_0@) == results,
            Err(fault) => r is Err && r->Err_0@ == fault,
        },
{
    let mut handler = TokenHanlder::new();
    let mut tokens = tokenizer(doc.as_str());
    loop
        invariant
            handler.wf(),
            handler@.run(pending(tokens)) == Builder::empty().run(lexed(doc@)),
        decreases pending(tokens).len(),
    {
        let ghost left = pending(tokens);
        match next_token(&mut tokens) {
            None => {
                return Ok(handler.into_body());
            },
            Some(token) => {
                match handler.handle_token(token) {
                    Ok(()) => {},
                    Err(error) => {
                        return Err(error);
                    },
                }
            },
        }
    }
}

} // verus!
