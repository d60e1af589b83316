//! The tree builder as a state machine over mathematical values: what each
//! lexical event does to the open elements and to the finished roots.

use vstd::prelude::*;
use crate::text::{joined, trimmed};
use crate::token::{EndKind, Event};
use crate::tree::Tree;

verus! {

/// The reserved key under which an open element carries its own name.
pub open spec fn name_key() -> Seq<char> {
    "$key"@
}

/// The reserved key under which an element with entries carries its text.
pub open spec fn text_key() -> Seq<char> {
    "..cdata"@
}

/// The key of the entry that records the name of the first root element.
pub open spec fn root_key() -> Seq<char> {
    "rootTagName"@
}

/// The marker that comes before an attribute's name in its key.
pub open spec fn attribute_marker() -> Seq<char> {
    "."@
}

/// The key under which an element carries the attribute `name`.
pub open spec fn attribute_key(name: Seq<char>) -> Seq<char> {
    attribute_marker() + name
}

/// The delimiter between the text runs of one element.
pub open spec fn separator() -> Seq<char> {
    "|"@
}

/// Reason: an element end came while no element was open.
pub open spec fn unmatched_close() -> Seq<char> {
    "unmatched close"@
}

/// Reason: an attribute came while no element was open.
pub open spec fn attribute_outside() -> Seq<char> {
    "attribute outside open element"@
}

/// Reason: a root element was closed that no longer carries its name.
pub open spec fn root_key_missing() -> Seq<char> {
    "Root element must have a key"@
}

/// Reason: a root element was closed whose name entry is not a text.
pub open spec fn root_key_not_text() -> Seq<char> {
    "Root key must be a string"@
}

/// Reason: a nested element was closed that no longer carries its name.
pub open spec fn key_missing() -> Seq<char> {
    "Element must have a key"@
}

/// Reason: a nested element was closed whose name entry is not a text.
pub open spec fn key_not_text() -> Seq<char> {
    "$key must be a string"@
}

/// Why a run of the builder stopped.
pub ghost enum Fault {
    /// The token source failed; its error is passed on as it came.
    Lexical(xmlparser::Error),
    /// The builder found the events ill-formed, for the given reason.
    Malformed(Seq<char>),
}

/// An element that is still open: its entries so far, among them its name under
/// the reserved key, and its text runs so far.
pub ghost struct Frame {
    pub fields: Map<Seq<char>, Tree>,
    pub runs: Seq<Seq<char>>,
}

/// The state of the builder: the open elements, innermost last, and the
/// finished roots in the order in which they were closed.
pub ghost struct Builder {
    pub stack: Seq<Frame>,
    pub results: Seq<Map<Seq<char>, Tree>>,
}

/// The frame of an element named `name` that was just opened.
pub open spec fn fresh_frame(name: Seq<char>) -> Frame {
    Frame { fields: map![name_key() => Tree::Value(name)], runs: Seq::empty() }
}

/// The entry that comes before the first root: it records the root's name.
pub open spec fn root_marker(name: Seq<char>) -> Map<Seq<char>, Tree> {
    map![root_key() => Tree::Value(name)]
}

/// What a closed element with the joined text `text` and the entries `nested`
/// hands to its parent: nothing where both are empty, the text alone, the
/// entries alone, or the entries with the text under the reserved key.
pub open spec fn merged(text: Seq<char>, nested: Map<Seq<char>, Tree>) -> Option<Tree> {
    if text.len() == 0 {
        if nested == Map::<Seq<char>, Tree>::empty() {
            None
        } else {
            Some(Tree::Object(nested))
        }
    } else {
        if nested == Map::<Seq<char>, Tree>::empty() {
            Some(Tree::Value(text))
        } else {
            Some(Tree::Object(nested.insert(text_key(), Tree::Value(text))))
        }
    }
}

impl Builder {
    /// The state before the first event.
    pub open spec fn empty() -> Builder {
        Builder { stack: Seq::empty(), results: Seq::empty() }
    }

    /// Every open element carries an entry under the reserved name key.
    pub open spec fn wf(self) -> bool {
        forall|i: int|
            0 <= i < self.stack.len() ==> (#[trigger] self.stack[i]).fields.contains_key(
                name_key(),
            )
    }

    /// The state with `frame` in place of the innermost open element.
    pub open spec fn replace_top(self, frame: Frame) -> Builder {
        Builder { stack: self.stack.drop_last().push(frame), ..self }
    }

    /// The state without the innermost open element, if there is one.
    pub open spec fn dropped(self) -> Builder {
        if self.stack.len() == 0 {
            self
        } else {
            Builder { stack: self.stack.drop_last(), ..self }
        }
    }

    /// An element start: a fresh frame is opened.
    pub open spec fn start(self, name: Seq<char>) -> Builder {
        Builder { stack: self.stack.push(fresh_frame(name)), ..self }
    }

    /// An attribute: its trimmed value is stored in the innermost open element
    /// under the attribute's key. It is an error where no element is open.
    pub open spec fn attribute(self, name: Seq<char>, value: Seq<char>) -> Result<
        Builder,
        Seq<char>,
    > {
        if self.stack.len() == 0 {
            Err(attribute_outside())
        } else {
            let top = self.stack.last();
            Ok(
                self.replace_top(
                    Frame {
                        fields: top.fields.insert(attribute_key(name), Tree::Value(trimmed(value))),
                        ..top
                    },
                ),
            )
        }
    }

    /// A text run: trimmed, and appended to the runs of the innermost open
    /// element unless it is empty then or no element is open.
    pub open spec fn text(self, text: Seq<char>) -> Builder {
        let run = trimmed(text);
        if run.len() == 0 || self.stack.len() == 0 {
            self
        } else {
            let top = self.stack.last();
            self.replace_top(Frame { runs: top.runs.push(run), ..top })
        }
    }

    /// The end of the innermost open element. Its name entry is taken out of
    /// its entries. A root is appended to the results, after the marker with
    /// its name where it is the first; a nested element hands to its parent
    /// what `merged` gives, under its name.
    pub open spec fn close(self) -> Result<Builder, Seq<char>> {
        if self.stack.len() == 0 {
            Err(unmatched_close())
        } else {
            let top = self.stack.last();
            let rest = self.dropped();
            let is_root = rest.stack.len() == 0;
            if !top.fields.contains_key(name_key()) {
                Err(
                    if is_root {
                        root_key_missing()
                    } else {
                        key_missing()
                    },
                )
            } else {
                match top.fields[name_key()] {
                    Tree::Object(_) => Err(
                        if is_root {
                            root_key_not_text()
                        } else {
                            key_not_text()
                        },
                    ),
                    Tree::Value(name) => {
                        let body = top.fields.remove(name_key());
                        if is_root {
                            Ok(
                                Builder {
                                    results: if rest.results.len() == 0 {
                                        seq![root_marker(name), body]
                                    } else {
                                        rest.results.push(body)
                                    },
                                    ..rest
                                },
                            )
                        } else {
                            match merged(joined(top.runs, separator()), body) {
                                None => Ok(rest),
                                Some(node) => {
                                    let parent = rest.stack.last();
                                    Ok(
                                        rest.replace_top(
                                            Frame {
                                                fields: parent.fields.insert(name, node),
                                                ..parent
                                            },
                                        ),
                                    )
                                },
                            }
                        }
                    },
                }
            }
        }
    }

    /// What one event does to the state.
    pub open spec fn step(self, event: Event) -> Result<Builder, Seq<char>> {
        match event {
            Event::ElementStart { local } => Ok(self.start(local)),
            Event::Attribute { local, value } => self.attribute(local, value),
            Event::ElementEnd { end } => match end {
                EndKind::Open => Ok(self),
                EndKind::Close => self.close(),
                EndKind::Empty => self.close(),
            },
            Event::Text { text } => Ok(self.text(text)),
            Event::Other => Ok(self),
        }
    }

    /// The state that a failed item leaves behind: a failed element end has
    /// discarded the innermost open element, any other failure changed nothing.
    pub open spec fn after_failure(self, item: Result<Event, xmlparser::Error>) -> Builder {
        match item {
            Ok(Event::ElementEnd { end }) => self.dropped(),
            _ => self,
        }
    }

    /// What one item of the token stream does to the state: a lexical error
    /// stops the run, an event is stepped over.
    pub open spec fn feed(self, item: Result<Event, xmlparser::Error>) -> Result<Builder, Fault> {
        match item {
            Err(error) => Err(Fault::Lexical(error)),
            Ok(event) => match self.step(event) {
                Ok(next) => Ok(next),
                Err(reason) => Err(Fault::Malformed(reason)),
            },
        }
    }

    /// The state after all of `items`, or the first fault.
    pub open spec fn run(self, items: Seq<Result<Event, xmlparser::Error>>) -> Result<
        Builder,
        Fault,
    >
        decreases items.len(),
    {
        if items.len() == 0 {
            Ok(self)
        } else {
            match self.feed(items.first()) {
                Ok(next) => next.run(items.drop_first()),
                Err(fault) => Err(fault),
            }
        }
    }
}

/// The finished roots that a token stream builds from the empty state, or the
/// first fault. Elements that are still open at the end are left out.
pub open spec fn built(items: Seq<Result<Event, xmlparser::Error>>) -> Result<
    Seq<Map<Seq<char>, Tree>>,
    Fault,
> {
    match Builder::empty().run(items) {
        Ok(last) => Ok(last.results),
        Err(fault) => Err(fault),
    }
}

} // verus!
