//! The nested associative tree: a node is a text value or a mapping from keys to
//! nodes.

use vstd::prelude::*;
use crate::text::str_eq;

verus! {

/// The mathematical value of a node: a text, or a mapping from keys to values.
pub ghost enum Tree {
    /// A text.
    Value(Seq<char>),
    /// Named children: elements, attributes and gathered text.
    Object(Map<Seq<char>, Tree>),
}

/// A node of the tree.
#[derive(Debug)]
pub enum RecursiveHashMap {
    /// A leaf that holds a text.
    Value(String),
    /// A node with named children.
    Object(Mapping),
}

/// A finite mapping from keys to nodes. No key occurs twice; the order of the
/// entries carries no meaning.
#[derive(Debug)]
pub struct Mapping {
    entries: Vec<(String, RecursiveHashMap)>,
}

/// Whether some entry of `entries` has the key `key`.
spec fn has_key(entries: Seq<(String, RecursiveHashMap)>, key: Seq<char>) -> bool {
    exists|i: int| 0 <= i < entries.len() && #[trigger] entries[i].0@ == key
}

/// The position of an entry of `entries` with the key `key`.
spec fn position(entries: Seq<(String, RecursiveHashMap)>, key: Seq<char>) -> int {
    choose|i: int| 0 <= i < entries.len() && #[trigger] entries[i].0@ == key
}

/// Whether the keys of `entries` are pairwise distinct.
spec fn distinct_keys(entries: Seq<(String, RecursiveHashMap)>) -> bool {
    forall|i: int, j: int|
        0 <= i < entries.len() && 0 <= j < entries.len() && i != j ==> #[trigger] entries[i].0@
            != #[trigger] entries[j].0@
}

/// The mapping that a list of entries stands for.
spec fn entries_map(entries: Seq<(String, RecursiveHashMap)>) -> Map<Seq<char>, Tree>
    decreases entries,
{
    Map::new(
        |key: Seq<char>| has_key(entries, key),
        |key: Seq<char>|
            {
                let i = position(entries, key);
                if 0 <= i < entries.len() {
                    entries[i].1.view()
                } else {
                    Tree::Value(Seq::empty())
                }
            },
    )
}

/// The mappings that a list of `Mapping`s stands for.
pub open spec fn mappings_view(list: Seq<Mapping>) -> Seq<Map<Seq<char>, Tree>> {
    Seq::new(list.len(), |i: int| list[i]@)
}

impl RecursiveHashMap {
    /// The value of this node.
    pub open spec fn view(&self) -> Tree
        decreases self,
    {
        match self {
            RecursiveHashMap::Value(text) => Tree::Value(text@),
            RecursiveHashMap::Object(mapping) => Tree::Object(mapping.view()),
        }
    }

    /// The mapping of an object node; `err` for a text node.
    pub fn is_map_or<E>(self, err: E) -> (r: Result<Mapping, E>)
        ensures
            match self {
                RecursiveHashMap::Object(mapping) => r == Ok::<Mapping, E>(mapping),
                RecursiveHashMap::Value(_) => r == Err::<Mapping, E>(err),
            },
    {
        match self {
            RecursiveHashMap::Object(mapping) => Ok(mapping),
            RecursiveHashMap::Value(_) => Err(err),
        }
    }

    /// The text of a text node; `err` for an object node.
    pub fn is_value_or<E>(self, err: E) -> (r: Result<String, E>)
        ensures
            match self {
                RecursiveHashMap::Value(text) => r == Ok::<String, E>(text),
                RecursiveHashMap::Object(_) => r == Err::<String, E>(err),
            },
    {
        match self {
            RecursiveHashMap::Value(text) => Ok(text),
            RecursiveHashMap::Object(_) => Err(err),
        }
    }
}

/// In a list with distinct keys, the entry at `i` is the one found for its key.
proof fn lemma_position(entries: Seq<(String, RecursiveHashMap)>, i: int)
    requires
        distinct_keys(entries),
        0 <= i < entries.len(),
    ensures
        has_key(entries, entries[i].0@),
        position(entries, entries[i].0@) == i,
        entries_map(entries).contains_key(entries[i].0@),
        entries_map(entries)[entries[i].0@] == entries[i].1.view(),
{
    let key = entries[i].0@;
    let p = position(entries, key);
    assert(0 <= p < entries.len() && entries[p].0@ == key);
}

/// Appending an entry with a new key inserts it into the mapping.
proof fn lemma_push(entries: Seq<(String, RecursiveHashMap)>, key: String, value: RecursiveHashMap)
    requires
        distinct_keys(entries),
        !has_key(entries, key@),
    ensures
        distinct_keys(entries.push((key, value))),
        entries_map(entries.push((key, value))) == entries_map(entries).insert(key@, value.view()),
{
    let after = entries.push((key, value));
    assert(distinct_keys(after)) by {
        assert forall|i: int, j: int|
            0 <= i < after.len() && 0 <= j < after.len() && i != j implies #[trigger] after[i].0@
            != #[trigger] after[j].0@ by {
            if i < entries.len() && j < entries.len() {
                assert(entries[i].0@ != entries[j].0@);
            } else if i < entries.len() {
                assert(entries[i].0@ != key@);
            } else {
                assert(entries[j].0@ != key@);
            }
        }
    }
    let left = entries_map(after);
    let right = entries_map(entries).insert(key@, value.view());
    assert forall|k: Seq<char>| left.contains_key(k) <==> right.contains_key(k) by {
        if has_key(after, k) {
            let i = position(after, k);
            if i < entries.len() {
                assert(entries[i].0@ == k);
            }
        }
        if has_key(entries, k) {
            let i = position(entries, k);
            assert(after[i].0@ == k);
        }
        if k == key@ {
            assert(after[entries.len() as int].0@ == k);
        }
    }
    assert forall|k: Seq<char>| left.contains_key(k) implies left[k] == right[k] by {
        let i = position(after, k);
        lemma_position(after, i);
        if i < entries.len() {
            assert(entries[i] == after[i]);
            lemma_position(entries, i);
        }
    }
    assert(left =~= right);
}

/// Replacing the value of the entry at `i` replaces the value of its key.
proof fn lemma_update(
    entries: Seq<(String, RecursiveHashMap)>,
    i: int,
    key: String,
    value: RecursiveHashMap,
)
    requires
        distinct_keys(entries),
        0 <= i < entries.len(),
        entries[i].0@ == key@,
    ensures
        distinct_keys(entries.update(i, (key, value))),
        entries_map(entries.update(i, (key, value))) == entries_map(entries).insert(
            key@,
            value.view(),
        ),
{
    let after = entries.update(i, (key, value));
    assert(distinct_keys(after)) by {
        assert forall|a: int, b: int|
            0 <= a < after.len() && 0 <= b < after.len() && a != b implies #[trigger] after[a].0@
            != #[trigger] after[b].0@ by {
            assert(after[a].0@ == entries[a].0@);
            assert(after[b].0@ == entries[b].0@);
        }
    }
    let left = entries_map(after);
    let right = entries_map(entries).insert(key@, value.view());
    assert forall|k: Seq<char>| left.contains_key(k) <==> right.contains_key(k) by {
        if has_key(after, k) {
            let p = position(after, k);
            assert(entries[p].0@ == k);
        }
        if has_key(entries, k) {
            let p = position(entries, k);
            assert(after[p].0@ == k);
        }
        if k == key@ {
            assert(after[i].0@ == k);
        }
    }
    assert forall|k: Seq<char>| left.contains_key(k) implies left[k] == right[k] by {
        let p = position(after, k);
        lemma_position(after, p);
        if p != i {
            assert(entries[p] == after[p]);
            lemma_position(entries, p);
        }
    }
    assert(left =~= right);
}

/// Taking the entry at `i` out removes its key from the mapping.
proof fn lemma_remove(entries: Seq<(String, RecursiveHashMap)>, i: int)
    requires
        distinct_keys(entries),
        0 <= i < entries.len(),
    ensures
        distinct_keys(entries.remove(i)),
        entries_map(entries.remove(i)) == entries_map(entries).remove(entries[i].0@),
{
    let after = entries.remove(i);
    let key = entries[i].0@;
    assert forall|a: int| 0 <= a < after.len() implies #[trigger] after[a] == entries[if a < i {
        a
    } else {
        a + 1
    }] by {}
    assert(distinct_keys(after)) by {
        assert forall|a: int, b: int|
            0 <= a < after.len() && 0 <= b < after.len() && a != b implies #[trigger] after[a].0@
            != #[trigger] after[b].0@ by {
            let a0 = if a < i { a } else { a + 1 };
            let b0 = if b < i { b } else { b + 1 };
            assert(after[a] == entries[a0]);
            assert(after[b] == entries[b0]);
            assert(entries[a0].0@ != entries[b0].0@);
        }
    }
    let left = entries_map(after);
    let right = entries_map(entries).remove(key);
    assert forall|k: Seq<char>| left.contains_key(k) <==> right.contains_key(k) by {
        if has_key(after, k) {
            let p = position(after, k);
            let p0 = if p < i { p } else { p + 1 };
            assert(after[p] == entries[p0]);
            assert(entries[p0].0@ == k);
            assert(entries[p0].0@ != entries[i].0@);
        }
        if has_key(entries, k) && k != key {
            let p = position(entries, k);
            let q = if p < i { p } else { p - 1 };
            assert(after[q] == entries[p]);
            assert(after[q].0@ == k);
        }
    }
    assert forall|k: Seq<char>| left.contains_key(k) implies left[k] == right[k] by {
        let p = position(after, k);
        lemma_position(after, p);
        let p0 = if p < i { p } else { p + 1 };
        assert(after[p] == entries[p0]);
        lemma_position(entries, p0);
    }
    assert(left =~= right);
}

/// The mapping of a list with distinct keys has as many keys as the list has
/// entries.
proof fn lemma_len(entries: Seq<(String, RecursiveHashMap)>)
    requires
        distinct_keys(entries),
    ensures
        entries_map(entries).dom().finite(),
        entries_map(entries).dom().len() == entries.len(),
    decreases entries.len(),
{
    if entries.len() == 0 {
        assert(entries_map(entries).dom() =~= Set::<Seq<char>>::empty());
    } else {
        let front = entries.drop_last();
        let last = entries.last();
        assert(distinct_keys(front)) by {
            assert forall|a: int, b: int|
                0 <= a < front.len() && 0 <= b < front.len() && a != b implies #[trigger] front[a].0@
                != #[trigger] front[b].0@ by {
                assert(entries[a].0@ != entries[b].0@);
            }
        }
        assert(!has_key(front, last.0@)) by {
            if has_key(front, last.0@) {
                let p = position(front, last.0@);
                assert(entries[p].0@ == entries[entries.len() - 1].0@);
            }
        }
        lemma_len(front);
        lemma_push(front, last.0, last.1);
        assert(front.push((last.0, last.1)) =~= entries);
        assert(entries_map(entries).dom() =~= entries_map(front).dom().insert(last.0@));
    }
}

impl Mapping {
    #[verifier::type_invariant]
    spec fn inv(&self) -> bool {
        distinct_keys(self.entries@)
    }

    /// The mathematical mapping that this value stands for.
    pub closed spec fn view(&self) -> Map<Seq<char>, Tree>
        decreases self,
    {
        entries_map(self.entries@)
    }

    /// A mapping without entries.
    pub fn new() -> (r: Self)
        ensures
            r@ == Map::<Seq<char>, Tree>::empty(),
    {
        let r = Mapping { entries: Vec::new() };
        assert(r@ =~= Map::<Seq<char>, Tree>::empty());
        r
    }

    /// The number of entries.
    pub fn len(&self) -> (n: usize)
        ensures
            self@.dom().finite(),
            n == self@.len(),
    {
        proof {
            use_type_invariant(&*self);
            lemma_len(self.entries@);
        }
        self.entries.len()
    }

    /// Whether the mapping has no entry.
    pub fn is_empty(&self) -> (r: bool)
        ensures
            r == (self@ == Map::<Seq<char>, Tree>::empty()),
    {
        proof {
            use_type_invariant(&*self);
            if self.entries@.len() > 0 {
                lemma_position(self.entries@, 0);
            } else {
                assert(self@ =~= Map::<Seq<char>, Tree>::empty());
            }
        }
        self.entries.len() == 0
    }

    /// The position of the entry with the key `key`, if there is one.
    fn find(&self, key: &str) -> (r: Option<usize>)
        ensures
            match r {
                Some(i) => i < self.entries@.len() && self.entries@[i as int].0@ == key@,
                None => !has_key(self.entries@, key@),
            },
    {
        let mut i: usize = 0;
        while i < self.entries.len()
            invariant
                i <= self.entries@.len(),
                forall|j: int| 0 <= j < i ==> self.entries@[j].0@ != key@,
            decreases self.entries@.len() - i,
        {
            if str_eq(self.entries[i].0.as_str(), key) {
                return Some(i);
            }
            i += 1;
        }
        None
    }

    /// Whether the mapping has an entry for `key`.
    pub fn contains_key(&self, key: &str) -> (r: bool)
        ensures
            r == self@.contains_key(key@),
    {
        match self.find(key) {
            Some(i) => {
                assert(has_key(self.entries@, key@));
                true
            },
            None => false,
        }
    }

    /// The node stored under `key`, if there is one.
    pub fn get(&self, key: &str) -> (r: Option<&RecursiveHashMap>)
        ensures
            match r {
                Some(node) => self@.contains_key(key@) && node@ == self@[key@],
                None => !self@.contains_key(key@),
            },
    {
        match self.find(key) {
            Some(i) => {
                proof {
                    use_type_invariant(&*self);
                    lemma_position(self.entries@, i as int);
                }
                Some(&self.entries[i].1)
            },
            None => None,
        }
    }

    /// Stores `value` under `key` and returns the node that was stored there
    /// before, if there was one. A later entry replaces an earlier one with the
    /// same key.
    pub fn insert(&mut self, key: String, value: RecursiveHashMap) -> (r: Option<RecursiveHashMap>)
        ensures
            final(self)@ == old(self)@.insert(key@, value@),
            match r {
                Some(node) => old(self)@.contains_key(key@) && node@ == old(self)@[key@],
                None => !old(self)@.contains_key(key@),
            },
    {
        proof {
            use_type_invariant(&*self);
        }
        let found = self.find(key.as_str());
        let mut entries: Vec<(String, RecursiveHashMap)> = Vec::new();
        core::mem::swap(&mut entries, &mut self.entries);
        let ghost before = entries@;
        let r = match found {
            Some(i) => {
                proof {
                    lemma_position(before, i as int);
                    lemma_update(before, i as int, key, value);
                }
                entries.push((key, value));
                let previous = entries.swap_remove(i);
                assert(entries@ =~= before.update(i as int, (key, value)));
                Some(previous.1)
            },
            None => {
                proof {
                    lemma_push(before, key, value);
                }
                entries.push((key, value));
                None
            },
        };
        self.entries = entries;
        r
    }

    /// Takes the entry for `key` out and returns its node, if there is one.
    pub fn remove(&mut self, key: &str) -> (r: Option<RecursiveHashMap>)
        ensures
            final(self)@ == old(self)@.remove(key@),
            match r {
                Some(node) => old(self)@.contains_key(key@) && node@ == old(self)@[key@],
                None => !old(self)@.contains_key(key@),
            },
    {
        proof {
            use_type_invariant(&*self);
        }
        match self.find(key) {
            Some(i) => {
                let mut entries: Vec<(String, RecursiveHashMap)> = Vec::new();
                core::mem::swap(&mut entries, &mut self.entries);
                proof {
                    lemma_position(entries@, i as int);
                    lemma_remove(entries@, i as int);
                }
                let taken = entries.remove(i);
                self.entries = entries;
                Some(taken.1)
            },
            None => {
                assert(self@.remove(key@) =~= self@);
                None
            },
        }
    }

    /// The entries, each key once, in no particular order.
    pub fn entries(&self) -> (r: &Vec<(String, RecursiveHashMap)>)
        ensures
            self@.dom().finite(),
            r@.len() == self@.len(),
            forall|i: int|
                0 <= i < r@.len() ==> self@.contains_key(#[trigger] r@[i].0@) && self@[r@[i].0@]
                    == r@[i].1@,
            forall|i: int, j: int|
                0 <= i < r@.len() && 0 <= j < r@.len() && i != j ==> #[trigger] r@[i].0@
                    != #[trigger] r@[j].0@,
    {
        proof {
            use_type_invariant(&*self);
            lemma_len(self.entries@);
            assert forall|i: int| 0 <= i < self.entries@.len() implies self@.contains_key(
                #[trigger] self.entries@[i].0@,
            ) && self@[self.entries@[i].0@] == self.entries@[i].1@ by {
                lemma_position(self.entries@, i);
            }
        }
        &self.entries
    }
}

/// Two lists that agree entry by entry, in keys and in the values of their
/// nodes, stand for the same mapping.
proof fn lemma_same_entries(
    left: Seq<(String, RecursiveHashMap)>,
    right: Seq<(String, RecursiveHashMap)>,
)
    requires
        distinct_keys(left),
        left.len() == right.len(),
        forall|i: int|
            0 <= i < left.len() ==> (#[trigger] left[i]).0@ == right[i].0@ && left[i].1.view()
                == right[i].1.view(),
    ensures
        distinct_keys(right),
        entries_map(left) == entries_map(right),
{
    assert(distinct_keys(right)) by {
        assert forall|i: int, j: int|
            0 <= i < right.len() && 0 <= j < right.len() && i != j implies #[trigger] right[i].0@
            != #[trigger] right[j].0@ by {
            assert(left[i].0@ == right[i].0@);
            assert(left[j].0@ == right[j].0@);
        }
    }
    let a = entries_map(left);
    let b = entries_map(right);
    assert forall|k: Seq<char>| a.contains_key(k) <==> b.contains_key(k) by {
        if has_key(left, k) {
            let i = position(left, k);
            assert(left[i].0@ == right[i].0@);
        }
        if has_key(right, k) {
            let i = position(right, k);
            assert(left[i].0@ == right[i].0@);
        }
    }
    assert forall|k: Seq<char>| a.contains_key(k) implies a[k] == b[k] by {
        let i = position(left, k);
        lemma_position(left, i);
        assert(left[i].0@ == right[i].0@);
        lemma_position(right, i);
    }
    assert(a =~= b);
}

/// A copy of `node`.
fn copy_node(node: &RecursiveHashMap) -> (r: RecursiveHashMap)
    ensures
        r@ == node@,
    decreases node, 0nat,
{
    match node {
        RecursiveHashMap::Value(text) => RecursiveHashMap::Value(text.clone()),
        RecursiveHashMap::Object(mapping) => RecursiveHashMap::Object(copy_mapping(mapping)),
    }
}

/// A copy of `mapping`.
fn copy_mapping(mapping: &Mapping) -> (r: Mapping)
    ensures
        r@ == mapping@,
    decreases mapping, 0nat,
{
    proof {
        use_type_invariant(mapping);
    }
    let mut entries: Vec<(String, RecursiveHashMap)> = Vec::new();
    let mut i: usize = 0;
    while i < mapping.entries.len()
        invariant
            i <= mapping.entries@.len(),
            entries@.len() == i,
            forall|j: int|
                0 <= j < i ==> (#[trigger] mapping.entries@[j]).0@ == entries@[j].0@
                    && mapping.entries@[j].1.view() == entries@[j].1.view(),
        decreases mapping.entries@.len() - i,
    {
        let key = mapping.entries[i].0.clone();
        let value = copy_node(&mapping.entries[i].1);
        entries.push((key, value));
        i += 1;
    }
    proof {
        lemma_same_entries(mapping.entries@, entries@);
    }
    Mapping { entries }
}

impl Clone for RecursiveHashMap {
    fn clone(&self) -> (r: Self)
        ensures
            r@ == self@,
    {
        copy_node(self)
    }
}

impl Clone for Mapping {
    fn clone(&self) -> (r: Self)
        ensures
            r@ == self@,
    {
        copy_mapping(self)
    }
}

} // verus!
