//! Laws of the tree builder, stated over its mathematical model and proved.

use vstd::prelude::*;
use crate::document::{
    Node, contribution, events, events_of, fields_of, is_filler, keeps_names, runs_of,
};
use crate::model::{
    Builder, Fault, Frame, attribute_key, attribute_marker, built, fresh_frame, name_key,
    root_marker, separator, text_key, unmatched_close,
};
use crate::text::{is_blank, is_white_space, joined, lemma_trimmed, trimmed};
use crate::token::{EndKind, Event};
use crate::tree::Tree;

verus! {

/// Running over two lists in a row is running over the first and, where that
/// succeeds, over the second from the state it reached.
pub proof fn lemma_run_concat(
    start: Builder,
    first: Seq<Result<Event, xmlparser::Error>>,
    second: Seq<Result<Event, xmlparser::Error>>,
)
    ensures
        start.run(first + second) == match start.run(first) {
            Ok(middle) => middle.run(second),
            Err(fault) => Err(fault),
        },
    decreases first.len(),
{
    if first.len() == 0 {
        assert(first + second =~= second);
    } else {
        assert((first + second).first() == first.first());
        assert((first + second).drop_first() =~= first.drop_first() + second);
        match start.feed(first.first()) {
            Ok(next) => {
                lemma_run_concat(next, first.drop_first(), second);
            },
            Err(_) => {},
        }
    }
}

/// A closing tag, or the end of an empty element, that comes when the events
/// before it have left no element open ends the run as malformed, whatever
/// follows it.
pub proof fn lemma_unmatched_close_fails(
    before: Seq<Result<Event, xmlparser::Error>>,
    end: EndKind,
    after: Seq<Result<Event, xmlparser::Error>>,
)
    requires
        end != EndKind::Open,
        Builder::empty().run(before) is Ok,
        Builder::empty().run(before)->Ok_0.stack.len() == 0,
    ensures
        built(before + seq![Ok(Event::ElementEnd { end })] + after) == Err::<
            Seq<Map<Seq<char>, Tree>>,
            Fault,
        >(Fault::Malformed(unmatched_close())),
{
    let close = seq![Ok::<Event, xmlparser::Error>(Event::ElementEnd { end })];
    let reached = Builder::empty().run(before)->Ok_0;
    lemma_run_concat(Builder::empty(), before + close, after);
    lemma_run_concat(Builder::empty(), before, close);
    assert(close.first() == Ok::<Event, xmlparser::Error>(Event::ElementEnd { end }));
    assert(reached.feed(close.first()) == Err::<Builder, Fault>(
        Fault::Malformed(unmatched_close()),
    ));
}

/// A list of events as items of a token stream in which nothing failed.
pub open spec fn oks(events: Seq<Event>) -> Seq<Result<Event, xmlparser::Error>> {
    Seq::new(events.len(), |i: int| Ok(events[i]))
}

/// The items of two lists of events in a row.
proof fn lemma_oks_concat(first: Seq<Event>, second: Seq<Event>)
    ensures
        oks(first + second) == oks(first) + oks(second),
{
    assert(oks(first + second) =~= oks(first) + oks(second));
}

/// Running over a single item is feeding it.
proof fn lemma_run_one(start: Builder, event: Event)
    ensures
        start.run(oks(seq![event])) == start.feed(Ok(event)),
{
    let items = oks(seq![event]);
    assert(items.first() == Ok::<Event, xmlparser::Error>(event));
    assert(items.drop_first() =~= Seq::<Result<Event, xmlparser::Error>>::empty());
    match start.feed(Ok(event)) {
        Ok(next) => {
            assert(next.run(items.drop_first()) == Ok::<Builder, Fault>(next));
        },
        Err(_) => {},
    }
}

/// The key of an attribute is never the reserved name key.
proof fn lemma_attribute_key_is_not_name_key(name: Seq<char>)
    ensures
        attribute_key(name) != name_key(),
{
    reveal_strlit("$key");
    reveal_strlit(".");
    assert(attribute_key(name)[0] == '.');
    assert(name_key()[0] == '$');
}

/// Content that keeps names gives its element no entry under the reserved
/// name key.
proof fn lemma_fields_without_name_key(nodes: Seq<Node>, count: nat)
    requires
        count <= nodes.len(),
        keeps_names(nodes, count),
    ensures
        !fields_of(nodes, count).contains_key(name_key()),
    decreases count,
{
    if count > 0 {
        lemma_fields_without_name_key(nodes, (count - 1) as nat);
        match nodes[count - 1] {
            Node::Attribute { name, value } => {
                lemma_attribute_key_is_not_name_key(name);
            },
            _ => {},
        }
    }
}

/// The state that the element `node` leaves behind when it is run from
/// `start`: a root is appended to the results, after the marker with its
/// name where it is the first; a nested element has handed its contribution
/// to the innermost open element.
pub open spec fn after_element(start: Builder, node: Node) -> Builder
    recommends
        node is Element,
{
    let name = node->Element_name;
    let content = node->Element_content;
    if start.stack.len() == 0 {
        let body = fields_of(content, content.len());
        Builder {
            results: if start.results.len() == 0 {
                seq![root_marker(name), body]
            } else {
                start.results.push(body)
            },
            ..start
        }
    } else {
        let top = start.stack.last();
        match contribution(node) {
            Some(tree) => start.replace_top(Frame { fields: top.fields.insert(name, tree), ..top }),
            None => start,
        }
    }
}

/// The state that the first `count` nodes of an element's content leave
/// behind when they are run from `start`, in which the element is the
/// innermost open one.
pub open spec fn after_content(start: Builder, nodes: Seq<Node>, count: nat) -> Builder
    recommends
        start.stack.len() > 0,
{
    let top = start.stack.last();
    start.replace_top(
        Frame {
            fields: top.fields.union_prefer_right(fields_of(nodes, count)),
            runs: top.runs + runs_of(nodes, count),
        },
    )
}

/// Running an element whose content keeps names succeeds and leaves
/// `after_element` behind.
pub proof fn lemma_element_run(start: Builder, node: Node)
    requires
        node is Element,
        keeps_names(node->Element_content, node->Element_content.len()),
    ensures
        start.run(oks(events(node))) == Ok::<Builder, Fault>(after_element(start, node)),
    decreases node, 0nat,
{
    let name = node->Element_name;
    let content = node->Element_content;
    let empty = node->Element_empty;
    let end = if empty {
        EndKind::Empty
    } else {
        EndKind::Close
    };
    let head = seq![Event::ElementStart { local: name }];
    let middle = events_of(content, content.len());
    let last = seq![Event::ElementEnd { end }];
    assert(events(node) == head + middle + last);
    lemma_oks_concat(head + middle, last);
    lemma_oks_concat(head, middle);
    lemma_run_concat(start, oks(head) + oks(middle), oks(last));
    lemma_run_concat(start, oks(head), oks(middle));
    lemma_run_one(start, Event::ElementStart { local: name });
    let opened = start.start(name);
    assert(opened.stack.last() == fresh_frame(name));
    lemma_content_run(opened, content, content.len());
    let filled = after_content(opened, content, content.len());
    lemma_run_one(filled, Event::ElementEnd { end });
    lemma_fields_without_name_key(content, content.len());
    let top = filled.stack.last();
    let body = fields_of(content, content.len());
    assert(top.fields.contains_key(name_key()));
    assert(top.fields[name_key()] == Tree::Value(name));
    assert(top.fields.remove(name_key()) =~= body);
    assert(top.runs =~= runs_of(content, content.len()));
    assert(filled.dropped().stack =~= start.stack);
    assert(filled.dropped() == start);
    if start.stack.len() == 0 {
        assert(filled.close() == Ok::<Builder, Seq<char>>(after_element(start, node)));
    } else {
        match contribution(node) {
            Some(tree) => {
                assert(filled.close() == Ok::<Builder, Seq<char>>(after_element(start, node)));
            },
            None => {
                assert(filled.close() == Ok::<Builder, Seq<char>>(after_element(start, node)));
            },
        }
    }
}

/// Running the first `count` nodes of an element's content, where they keep
/// names, succeeds and leaves `after_content` behind.
pub proof fn lemma_content_run(start: Builder, nodes: Seq<Node>, count: nat)
    requires
        start.stack.len() > 0,
        count <= nodes.len(),
        keeps_names(nodes, count),
    ensures
        start.run(oks(events_of(nodes, count))) == Ok::<Builder, Fault>(
            after_content(start, nodes, count),
        ),
    decreases nodes, count,
{
    let top = start.stack.last();
    if count == 0 {
        assert(oks(events_of(nodes, count)) =~= Seq::<Result<Event, xmlparser::Error>>::empty());
        assert(top.fields.union_prefer_right(fields_of(nodes, count)) =~= top.fields);
        assert(top.runs + runs_of(nodes, count) =~= top.runs);
        assert(start.stack.drop_last().push(top) =~= start.stack);
        assert(after_content(start, nodes, count) == start);
    } else {
        let fewer = (count - 1) as nat;
        let node = nodes[count - 1];
        lemma_content_run(start, nodes, fewer);
        let reached = after_content(start, nodes, fewer);
        let mid = reached.stack.last();
        lemma_oks_concat(events_of(nodes, fewer), events(node));
        lemma_run_concat(start, oks(events_of(nodes, fewer)), oks(events(node)));
        let goal = after_content(start, nodes, count);
        assert(reached.stack.drop_last() =~= start.stack.drop_last());
        match node {
            Node::Attribute { name, value } => {
                lemma_run_one(reached, Event::Attribute { local: name, value });
                assert(mid.fields.insert(attribute_key(name), Tree::Value(trimmed(value)))
                    =~= top.fields.union_prefer_right(fields_of(nodes, count)));
                assert(reached.attribute(name, value)->Ok_0.stack =~= goal.stack);
            },
            Node::Text { text } => {
                lemma_run_one(reached, Event::Text { text });
                if trimmed(text).len() == 0 {
                    assert(reached.text(text) == reached);
                } else {
                    assert(mid.runs.push(trimmed(text)) =~= top.runs + runs_of(nodes, count));
                    assert(reached.text(text).stack =~= goal.stack);
                }
            },
            Node::Element { name, content, empty } => {
                lemma_element_run(reached, node);
                match contribution(node) {
                    Some(tree) => {
                        assert(mid.fields.insert(name, tree) =~= top.fields.union_prefer_right(
                            fields_of(nodes, count),
                        ));
                        assert(after_element(reached, node).stack =~= goal.stack);
                    },
                    None => {},
                }
            },
            Node::StartTagEnd => {
                lemma_run_one(reached, Event::ElementEnd { end: EndKind::Open });
            },
            Node::Other => {
                lemma_run_one(reached, Event::Other);
            },
        }
    }
}

/// Text and passed-over pieces that come while no element is open change
/// nothing.
proof fn lemma_filler_run(start: Builder, nodes: Seq<Node>, count: nat)
    requires
        start.stack.len() == 0,
        count <= nodes.len(),
        forall|i: int| 0 <= i < count ==> is_filler(#[trigger] nodes[i]),
    ensures
        start.run(oks(events_of(nodes, count))) == Ok::<Builder, Fault>(start),
    decreases count,
{
    if count == 0 {
        assert(oks(events_of(nodes, count)) =~= Seq::<Result<Event, xmlparser::Error>>::empty());
    } else {
        let fewer = (count - 1) as nat;
        let node = nodes[count - 1];
        lemma_filler_run(start, nodes, fewer);
        lemma_oks_concat(events_of(nodes, fewer), events(node));
        lemma_run_concat(start, oks(events_of(nodes, fewer)), oks(events(node)));
        assert(is_filler(node));
        match node {
            Node::Text { text } => {
                lemma_run_one(start, Event::Text { text });
            },
            Node::Other => {
                lemma_run_one(start, Event::Other);
            },
            _ => {},
        }
    }
}

/// A document with a single root element, around which only text and
/// passed-over pieces stand, builds exactly two entries: the marker with the
/// root's name, and the root's entries. It is stated of content that keeps
/// names: an element that hands something up under the reserved name key
/// would replace the name of its parent.
pub proof fn lemma_single_root_document(
    prolog: Seq<Node>,
    name: Seq<char>,
    content: Seq<Node>,
    empty: bool,
    epilog: Seq<Node>,
)
    requires
        forall|i: int| 0 <= i < prolog.len() ==> is_filler(#[trigger] prolog[i]),
        forall|i: int| 0 <= i < epilog.len() ==> is_filler(#[trigger] epilog[i]),
        keeps_names(content, content.len()),
    ensures
        built(
            oks(
                events_of(prolog, prolog.len()) + events(Node::Element { name, content, empty })
                    + events_of(epilog, epilog.len()),
            ),
        ) == Ok::<Seq<Map<Seq<char>, Tree>>, Fault>(
            seq![root_marker(name), fields_of(content, content.len())],
        ),
{
    let root = Node::Element { name, content, empty };
    let before = events_of(prolog, prolog.len());
    let after = events_of(epilog, epilog.len());
    let initial = Builder::empty();
    lemma_oks_concat(before + events(root), after);
    lemma_oks_concat(before, events(root));
    lemma_run_concat(initial, oks(before) + oks(events(root)), oks(after));
    lemma_run_concat(initial, oks(before), oks(events(root)));
    lemma_filler_run(initial, prolog, prolog.len());
    lemma_element_run(initial, root);
    lemma_filler_run(after_element(initial, root), epilog, epilog.len());
}

/// A text of nothing but white space leaves the state as it is. Any other
/// text, while an element is open, adds its trimmed run behind the runs that
/// the element has, and that run is not empty.
pub proof fn lemma_text_runs(start: Builder, text: Seq<char>)
    ensures
        is_blank(text) ==> start.text(text) == start,
        !is_blank(text) && start.stack.len() > 0 ==> {
            &&& trimmed(text).len() > 0
            &&& start.text(text).stack.len() == start.stack.len()
            &&& start.text(text).stack.last().runs == start.stack.last().runs.push(trimmed(text))
            &&& start.text(text).stack.last().fields == start.stack.last().fields
        },
{
    lemma_trimmed(text);
}

/// The joined text of an element grows by the delimiter and the new run,
/// or by the run alone where it is the first.
pub proof fn lemma_joined_push(runs: Seq<Seq<char>>, run: Seq<char>, delimiter: Seq<char>)
    ensures
        joined(runs.push(run), delimiter) == if runs.len() == 0 {
            run
        } else {
            joined(runs, delimiter) + delimiter + run
        },
{
    assert(runs.push(run).drop_last() =~= runs);
}

/// No text run that an element keeps is empty, or starts or ends with white
/// space: a text of nothing but white space is never among them.
pub proof fn lemma_runs_hold_no_blank(nodes: Seq<Node>, count: nat)
    requires
        count <= nodes.len(),
    ensures
        forall|i: int|
            0 <= i < runs_of(nodes, count).len() ==> {
                let run = #[trigger] runs_of(nodes, count)[i];
                &&& run.len() > 0
                &&& !is_blank(run)
                &&& !is_white_space(run.first())
                &&& !is_white_space(run.last())
            },
    decreases count,
{
    if count > 0 {
        let fewer = runs_of(nodes, (count - 1) as nat);
        lemma_runs_hold_no_blank(nodes, (count - 1) as nat);
        match nodes[count - 1] {
            Node::Text { text } => {
                lemma_trimmed(text);
            },
            _ => {},
        }
        assert forall|i: int| 0 <= i < runs_of(nodes, count).len() implies {
            let run = #[trigger] runs_of(nodes, count)[i];
            &&& run.len() > 0
            &&& !is_blank(run)
            &&& !is_white_space(run.first())
            &&& !is_white_space(run.last())
        } by {
            let run = runs_of(nodes, count)[i];
            if i < fewer.len() {
                assert(run == fewer[i]);
            }
            assert(run.len() > 0);
            assert(!is_white_space(run[0]));
        }
    }
}

/// Runs of which none is empty are joined into an empty text only where
/// there is no run.
pub proof fn lemma_joined_is_empty(runs: Seq<Seq<char>>, delimiter: Seq<char>)
    requires
        forall|i: int| 0 <= i < runs.len() ==> (#[trigger] runs[i]).len() > 0,
    ensures
        joined(runs, delimiter).len() == 0 <==> runs.len() == 0,
{
    if runs.len() == 1 {
        assert(runs[0].len() > 0);
    } else if runs.len() > 1 {
        assert(runs.last() == runs[runs.len() - 1]);
    }
}

/// Whether `nodes` holds nothing that gives an element an entry or a text
/// run: no attribute, no child element, and no text but white space.
pub open spec fn is_hollow(nodes: Seq<Node>) -> bool {
    forall|i: int|
        0 <= i < nodes.len() ==> match #[trigger] nodes[i] {
            Node::Attribute { name, value } => false,
            Node::Element { name, content, empty } => false,
            Node::Text { text } => is_blank(text),
            Node::StartTagEnd => true,
            Node::Other => true,
        }
}

/// Hollow content gives an element no entry and no text run.
proof fn lemma_hollow(nodes: Seq<Node>, count: nat)
    requires
        is_hollow(nodes),
        count <= nodes.len(),
    ensures
        fields_of(nodes, count) == Map::<Seq<char>, Tree>::empty(),
        runs_of(nodes, count) == Seq::<Seq<char>>::empty(),
        keeps_names(nodes, count),
    decreases count,
{
    if count > 0 {
        lemma_hollow(nodes, (count - 1) as nat);
        match nodes[count - 1] {
            Node::Text { text } => {
                lemma_trimmed(text);
            },
            _ => {},
        }
    }
}

/// A nested element without attributes, text and children hands nothing to
/// its parent: after it the state is what it was before it, so no entry with
/// its name was added.
pub proof fn lemma_hollow_element_contributes_nothing(start: Builder, node: Node)
    requires
        node is Element,
        is_hollow(node->Element_content),
        start.stack.len() > 0,
    ensures
        start.run(oks(events(node))) == Ok::<Builder, Fault>(start),
{
    let content = node->Element_content;
    lemma_hollow(content, content.len());
    lemma_element_run(start, node);
}

/// What a nested element hands to its parent, by what it holds. With text
/// and no entries, its text is stored under its name. With entries and no
/// text, an object of its entries is stored. With both, an object of its
/// entries and of its text under the reserved text key is stored. With
/// neither, nothing is stored.
pub proof fn lemma_element_shapes(start: Builder, node: Node)
    requires
        node is Element,
        keeps_names(node->Element_content, node->Element_content.len()),
        start.stack.len() > 0,
    ensures
        start.run(oks(events(node))) is Ok,
        ({
            let name = node->Element_name;
            let content = node->Element_content;
            let text = joined(runs_of(content, content.len()), separator());
            let entries = fields_of(content, content.len());
            let no_entries = entries == Map::<Seq<char>, Tree>::empty();
            let after = start.run(oks(events(node)))->Ok_0;
            let parent = start.stack.last();
            &&& text.len() > 0 && no_entries ==> after == start.replace_top(
                Frame { fields: parent.fields.insert(name, Tree::Value(text)), ..parent },
            )
            &&& text.len() == 0 && !no_entries ==> after == start.replace_top(
                Frame { fields: parent.fields.insert(name, Tree::Object(entries)), ..parent },
            )
            &&& text.len() > 0 && !no_entries ==> after == start.replace_top(
                Frame {
                    fields: parent.fields.insert(
                        name,
                        Tree::Object(entries.insert(text_key(), Tree::Value(text))),
                    ),
                    ..parent
                },
            )
            &&& text.len() == 0 && no_entries ==> after == start
        }),
{
    lemma_element_run(start, node);
}

/// The events of a list of attributes, each a name and a value.
pub open spec fn attribute_events(attributes: Seq<(Seq<char>, Seq<char>)>) -> Seq<Event> {
    Seq::new(
        attributes.len(),
        |i: int| Event::Attribute { local: attributes[i].0, value: attributes[i].1 },
    )
}

/// Whether the attributes of `attributes` that share a name share their
/// trimmed value.
pub open spec fn agreeing(attributes: Seq<(Seq<char>, Seq<char>)>) -> bool {
    forall|i: int, j: int|
        0 <= i < attributes.len() && 0 <= j < attributes.len() && (#[trigger] attributes[i]).0 == (
        #[trigger] attributes[j]).0 ==> trimmed(attributes[i].1) == trimmed(attributes[j].1)
}

/// The entries `base` after the attributes of `attributes` were stored in
/// them in order.
spec fn attributes_onto(
    base: Map<Seq<char>, Tree>,
    attributes: Seq<(Seq<char>, Seq<char>)>,
) -> Map<Seq<char>, Tree>
    decreases attributes.len(),
{
    if attributes.len() == 0 {
        base
    } else {
        attributes_onto(base, attributes.drop_last()).insert(
            attribute_key(attributes.last().0),
            Tree::Value(trimmed(attributes.last().1)),
        )
    }
}

/// Whether some attribute of `attributes` is stored under `key`.
spec fn carries(attributes: Seq<(Seq<char>, Seq<char>)>, key: Seq<char>) -> bool {
    exists|i: int| 0 <= i < attributes.len() && attribute_key((#[trigger] attributes[i]).0) == key
}

/// Two attributes with the same key have the same name.
proof fn lemma_attribute_key_injective(first: Seq<char>, second: Seq<char>)
    requires
        attribute_key(first) == attribute_key(second),
    ensures
        first == second,
{
    let marker = attribute_marker();
    assert((marker + first).skip(marker.len() as int) =~= first);
    assert((marker + second).skip(marker.len() as int) =~= second);
}

/// Running a list of attributes while an element is open stores them in it.
proof fn lemma_attributes_run(start: Builder, attributes: Seq<(Seq<char>, Seq<char>)>)
    requires
        start.stack.len() > 0,
    ensures
        start.run(oks(attribute_events(attributes))) == Ok::<Builder, Fault>(
            start.replace_top(
                Frame {
                    fields: attributes_onto(start.stack.last().fields, attributes),
                    ..start.stack.last()
                },
            ),
        ),
    decreases attributes.len(),
{
    let top = start.stack.last();
    if attributes.len() == 0 {
        assert(oks(attribute_events(attributes)) =~= Seq::<
            Result<Event, xmlparser::Error>,
        >::empty());
        assert(start.stack.drop_last().push(top) =~= start.stack);
    } else {
        let front = attributes.drop_last();
        let last = attributes.last();
        let event = Event::Attribute { local: last.0, value: last.1 };
        lemma_attributes_run(start, front);
        assert(attribute_events(attributes) =~= attribute_events(front) + seq![event]);
        lemma_oks_concat(attribute_events(front), seq![event]);
        lemma_run_concat(start, oks(attribute_events(front)), oks(seq![event]));
        let reached = start.replace_top(
            Frame { fields: attributes_onto(top.fields, front), ..top },
        );
        lemma_run_one(reached, event);
        assert(reached.stack.drop_last() =~= start.stack.drop_last());
    }
}

/// What the entries hold after a list of agreeing attributes was stored in
/// them: each attribute's trimmed value under its key, and what they held
/// under every other key.
proof fn lemma_attributes_onto(
    base: Map<Seq<char>, Tree>,
    attributes: Seq<(Seq<char>, Seq<char>)>,
)
    requires
        agreeing(attributes),
    ensures
        forall|key: Seq<char>|
            #[trigger] attributes_onto(base, attributes).contains_key(key) <==> base.contains_key(
                key,
            ) || carries(attributes, key),
        forall|i: int|
            0 <= i < attributes.len() ==> attributes_onto(base, attributes)[attribute_key(
                (#[trigger] attributes[i]).0,
            )] == Tree::Value(trimmed(attributes[i].1)),
        forall|key: Seq<char>|
            !carries(attributes, key) ==> #[trigger] attributes_onto(base, attributes)[key]
                == base[key],
    decreases attributes.len(),
{
    if attributes.len() > 0 {
        let front = attributes.drop_last();
        let last = attributes.last();
        let count = attributes.len() - 1;
        assert(agreeing(front)) by {
            assert forall|i: int, j: int|
                0 <= i < front.len() && 0 <= j < front.len() && (#[trigger] front[i]).0 == (
                #[trigger] front[j]).0 implies trimmed(front[i].1) == trimmed(front[j].1) by {
                assert(attributes[i].0 == attributes[j].0);
            }
        }
        lemma_attributes_onto(base, front);
        let result = attributes_onto(base, attributes);
        assert forall|key: Seq<char>|
            #[trigger] result.contains_key(key) <==> base.contains_key(key) || carries(
                attributes,
                key,
            ) by {
            if carries(front, key) {
                let i = choose|i: int|
                    0 <= i < front.len() && attribute_key((#[trigger] front[i]).0) == key;
                assert(attribute_key(attributes[i].0) == key);
            }
            if carries(attributes, key) {
                let i = choose|i: int|
                    0 <= i < attributes.len() && attribute_key((#[trigger] attributes[i]).0)
                        == key;
                if i < count {
                    assert(attribute_key(front[i].0) == key);
                }
            }
            if key == attribute_key(last.0) {
                assert(attribute_key(attributes[count].0) == key);
            }
        }
        assert forall|i: int| 0 <= i < attributes.len() implies result[attribute_key(
            (#[trigger] attributes[i]).0,
        )] == Tree::Value(trimmed(attributes[i].1)) by {
            if attribute_key(attributes[i].0) == attribute_key(last.0) {
                lemma_attribute_key_injective(attributes[i].0, last.0);
                assert(attributes[i].0 == attributes[count].0);
            } else {
                assert(front[i] == attributes[i]);
            }
        }
        assert forall|key: Seq<char>| !carries(attributes, key) implies #[trigger] result[key]
            == base[key] by {
            if key == attribute_key(last.0) {
                assert(attribute_key(attributes[count].0) == key);
            }
            if carries(front, key) {
                let i = choose|i: int|
                    0 <= i < front.len() && attribute_key((#[trigger] front[i]).0) == key;
                assert(attribute_key(attributes[i].0) == key);
            }
        }
    } else {
        assert forall|key: Seq<char>| !carries(attributes, key) by {}
    }
}

/// The order in which the attributes of an element come does not matter:
/// two lists that hold the same attributes equally often, in any order,
/// leave the same state behind. It is stated of attributes that agree: of
/// two attributes with one name and different values the later one stays.
pub proof fn lemma_attribute_order(
    start: Builder,
    first: Seq<(Seq<char>, Seq<char>)>,
    second: Seq<(Seq<char>, Seq<char>)>,
)
    requires
        start.stack.len() > 0,
        first.to_multiset() == second.to_multiset(),
        agreeing(first),
    ensures
        start.run(oks(attribute_events(first))) == start.run(oks(attribute_events(second))),
{
    broadcast use vstd::seq_lib::group_to_multiset_ensures;

    assert forall|i: int| 0 <= i < second.len() implies first.contains(
        #[trigger] second[i],
    ) by {
        assert(second.contains(second[i]));
        assert(second.to_multiset().count(second[i]) > 0);
    }
    assert forall|i: int| 0 <= i < first.len() implies second.contains(#[trigger] first[i]) by {
        assert(first.contains(first[i]));
        assert(first.to_multiset().count(first[i]) > 0);
    }
    assert(agreeing(second)) by {
        assert forall|i: int, j: int|
            0 <= i < second.len() && 0 <= j < second.len() && (#[trigger] second[i]).0 == (
            #[trigger] second[j]).0 implies trimmed(second[i].1) == trimmed(second[j].1) by {
            assert(first.contains(second[i]));
            assert(first.contains(second[j]));
            let a = choose|a: int| 0 <= a < first.len() && first[a] == second[i];
            let b = choose|b: int| 0 <= b < first.len() && first[b] == second[j];
            assert(first[a].0 == first[b].0);
        }
    }
    let base = start.stack.last().fields;
    let left = attributes_onto(base, first);
    let right = attributes_onto(base, second);
    lemma_attributes_onto(base, first);
    lemma_attributes_onto(base, second);
    assert forall|key: Seq<char>| carries(first, key) <==> carries(second, key) by {
        if carries(first, key) {
            let i = choose|i: int|
                0 <= i < first.len() && attribute_key((#[trigger] first[i]).0) == key;
            assert(second.contains(first[i]));
            let j = choose|j: int| 0 <= j < second.len() && second[j] == first[i];
            assert(attribute_key(second[j].0) == key);
        }
        if carries(second, key) {
            let i = choose|i: int|
                0 <= i < second.len() && attribute_key((#[trigger] second[i]).0) == key;
            assert(first.contains(second[i]));
            let j = choose|j: int| 0 <= j < first.len() && first[j] == second[i];
            assert(attribute_key(first[j].0) == key);
        }
    }
    assert forall|key: Seq<char>| left.contains_key(key) <==> right.contains_key(key) by {
        assert(left.contains_key(key) <==> base.contains_key(key) || carries(first, key));
        assert(right.contains_key(key) <==> base.contains_key(key) || carries(second, key));
    }
    assert forall|key: Seq<char>| left.contains_key(key) implies left[key] == right[key] by {
        if !carries(first, key) {
            assert(left[key] == base[key]);
            assert(right[key] == base[key]);
        }
        if carries(first, key) {
            let i = choose|i: int|
                0 <= i < first.len() && attribute_key((#[trigger] first[i]).0) == key;
            assert(second.contains(first[i]));
            let j = choose|j: int| 0 <= j < second.len() && second[j] == first[i];
            assert(left[attribute_key(first[i].0)] == Tree::Value(trimmed(first[i].1)));
            assert(right[attribute_key(second[j].0)] == Tree::Value(trimmed(second[j].1)));
        }
    }
    assert(left =~= right);
    lemma_attributes_run(start, first);
    lemma_attributes_run(start, second);
}

/// Of two sibling elements with one name the later one stays: where the
/// second hands something to the parent, the state after both is the state
/// after the second alone. Siblings with one name are not gathered in a list.
pub proof fn lemma_later_sibling_stays(start: Builder, first: Node, second: Node)
    requires
        first is Element,
        second is Element,
        first->Element_name == second->Element_name,
        keeps_names(first->Element_content, first->Element_content.len()),
        keeps_names(second->Element_content, second->Element_content.len()),
        start.stack.len() > 0,
        contribution(second) is Some,
    ensures
        start.run(oks(events(first) + events(second))) == start.run(oks(events(second))),
{
    lemma_oks_concat(events(first), events(second));
    lemma_run_concat(start, oks(events(first)), oks(events(second)));
    lemma_element_run(start, first);
    let middle = after_element(start, first);
    lemma_element_run(middle, second);
    lemma_element_run(start, second);
    let name = second->Element_name;
    let tree = contribution(second)->Some_0;
    assert(middle.stack.drop_last() =~= start.stack.drop_last());
    assert(middle.stack.last().fields.insert(name, tree) =~= start.stack.last().fields.insert(
        name,
        tree,
    ));
    assert(after_element(middle, second).stack =~= after_element(start, second).stack);
}

/// Every event leaves every open element with its name entry.
pub proof fn lemma_step_keeps_names(start: Builder, event: Event)
    requires
        start.wf(),
    ensures
        start.step(event) is Ok ==> start.step(event)->Ok_0.wf(),
        start.dropped().wf(),
{
    let dropped = start.dropped();
    assert forall|i: int| 0 <= i < dropped.stack.len() implies (
    #[trigger] dropped.stack[i]).fields.contains_key(name_key()) by {
        assert(dropped.stack[i] == start.stack[i]);
    }
    if start.step(event) is Ok {
        let next = start.step(event)->Ok_0;
        assert forall|i: int| 0 <= i < next.stack.len() implies (
        #[trigger] next.stack[i]).fields.contains_key(name_key()) by {
            if i < start.stack.len() {
                assert(start.stack[i].fields.contains_key(name_key()));
            }
            if i < next.stack.len() - 1 {
                assert(next.stack[i] == start.stack[i]);
            }
        }
    }
}

/// When closing succeeds: exactly when an element is open and its name entry
/// is a text. In a state in which every open element has its name entry, the
/// entry is never found missing.
pub proof fn lemma_close_succeeds(start: Builder)
    requires
        start.wf(),
    ensures
        start.close() is Ok <==> start.stack.len() > 0 && start.stack.last().fields[name_key()]
            is Value,
        start.stack.len() > 0 ==> start.stack.last().fields.contains_key(name_key()),
{
    if start.stack.len() > 0 {
        assert(start.stack[start.stack.len() - 1].fields.contains_key(name_key()));
    }
}

} // verus!
