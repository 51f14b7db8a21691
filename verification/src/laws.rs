//! Laws of the encoding.
//!
//! What a program that edits a document relies on: what it did not touch is
//! written back byte for byte. A tree whose text stands where it was parsed
//! is written as the bytes that were parsed; and replacing one value changes
//! the bytes of that value and no others.

use crate::lines::{tabs, NEWLINE};
use crate::paths::{
    graft_from, lemma_graft_same, lemma_with_child, resolve_from, step_into, with_child, Step,
};
use crate::span::{lemma_built_verbatim, lemma_parsed_wf, parsed, Span};
use crate::tree::{
    comment_built, encoded_entries, encoded_items, hash, hash_bang, heading, lemma_position_of,
    position_of, slashes, Document, Entry, Node,
};
use vstd::prelude::*;

verus! {

impl Span {
    /// Whether the span stands in a document at `indent`, as parsing at that
    /// depth leaves it: it is well formed, and its continuation lines, if it
    /// has any, are behind `indent + 1` tabs.
    pub open spec fn stands_at(self, indent: nat) -> bool {
        self.wf() && (self.dedent is None || self.dedent == Some(indent + 1))
    }

    /// The span as it stands in a document at `indent` behind `marker`.
    pub open spec fn as_stands(self, indent: nat, marker: Seq<u8>) -> Seq<u8> {
        tabs(indent) + marker + self.verbatim + seq![NEWLINE]
    }
}

/// Whether a comment that may be missing stands in a document at `indent`.
pub open spec fn comment_stands(c: Option<Span>, indent: nat) -> bool {
    match c {
        Some(span) => span.stands_at(indent),
        None => true,
    }
}

/// A comment that may be missing as it stands in a document.
pub open spec fn comment_as_stands(c: Option<Span>, indent: nat, marker: Seq<u8>) -> Seq<u8> {
    match c {
        Some(span) => span.as_stands(indent, marker),
        None => Seq::empty(),
    }
}

impl Node {
    /// Whether every span of the value stands where it is written when the
    /// value is written at `indent`: nothing has moved to another depth
    /// since it was parsed.
    pub open spec fn in_place(self, indent: nat) -> bool
        decreases self,
    {
        match self {
            Node::Text { content, epilog } => content.stands_at(indent + 1) && comment_stands(
                epilog,
                indent + 1,
            ),
            Node::List { items, prolog, epilog } => comment_stands(prolog, indent + 1)
                && comment_stands(epilog, indent + 1) && forall|i: int|
                0 <= i < items.len() ==> (#[trigger] items[i]).in_place(indent + 1),
            Node::Dict { entries, prolog, epilog } => comment_stands(prolog, indent + 1)
                && comment_stands(epilog, indent + 1) && forall|i: int|
                0 <= i < entries.len() ==> (#[trigger] entries[i]).in_place(indent + 1),
        }
    }

    /// The value as it stands in a document at `indent` under `key`: its
    /// opening line, and its spans byte for byte.
    pub open spec fn as_stands(self, indent: nat, key: Option<Seq<char>>) -> Seq<u8>
        decreases self,
    {
        match self {
            Node::Text { content, epilog } => heading(indent, 0x3Cu8, key, 0x3Eu8)
                + content.as_stands(indent + 1, Seq::empty()) + comment_as_stands(
                epilog,
                indent + 1,
                hash(),
            ),
            Node::List { items, prolog, epilog } => heading(indent, 0x5Bu8, key, 0x5Du8)
                + comment_as_stands(prolog, indent + 1, hash()) + items_as_stand(items, indent + 1)
                + comment_as_stands(epilog, indent + 1, hash()),
            Node::Dict { entries, prolog, epilog } => heading(indent, 0x7Bu8, key, 0x7Du8)
                + comment_as_stands(prolog, indent + 1, hash()) + entries_as_stand(
                entries,
                indent + 1,
            ) + comment_as_stands(epilog, indent + 1, hash()),
        }
    }
}

impl Entry {
    /// Whether every span of the entry stands where it is written when the
    /// entry is written at `indent`.
    pub open spec fn in_place(self, indent: nat) -> bool
        decreases self,
    {
        comment_stands(self.before, indent) && self.value.in_place(indent)
    }

    /// The entry as it stands in a document at `indent`.
    pub open spec fn as_stands(self, indent: nat) -> Seq<u8>
        decreases self,
    {
        (if self.gap {
            seq![NEWLINE]
        } else {
            Seq::empty()
        }) + comment_as_stands(self.before, indent, slashes()) + self.value.as_stands(
            indent,
            Some(self.key),
        )
    }
}

/// The items of a list as they stand in a document at `indent`.
pub open spec fn items_as_stand(items: Seq<Node>, indent: nat) -> Seq<u8>
    decreases items,
{
    if items.len() == 0 {
        Seq::empty()
    } else {
        items_as_stand(items.drop_last(), indent) + items.last().as_stands(indent, None)
    }
}

/// The entries of a dictionary as they stand in a document at `indent`.
pub open spec fn entries_as_stand(entries: Seq<Entry>, indent: nat) -> Seq<u8>
    decreases entries,
{
    if entries.len() == 0 {
        Seq::empty()
    } else {
        entries_as_stand(entries.drop_last(), indent) + entries.last().as_stands(indent)
    }
}

/// What parsing finds at a depth stands at that depth.
pub proof fn lemma_parsed_stands(src: Seq<u8>, indent: nat)
    ensures
        parsed(src, indent).stands_at(indent),
{
    lemma_parsed_wf(src, indent);
}

/// A comment that stands where it is written is written as it stands.
pub proof fn lemma_comment_in_place(c: Option<Span>, indent: nat, marker: Seq<u8>)
    requires
        comment_stands(c, indent),
    ensures
        comment_built(c, indent, marker) == comment_as_stands(c, indent, marker),
{
    if c is Some {
        lemma_built_verbatim(c->0, indent, marker);
    }
}

/// Round trip of a value. A value of which every span stands where it is
/// written is written as it stands: the bytes that were parsed come back
/// byte for byte.
pub proof fn lemma_in_place(node: Node, indent: nat, key: Option<Seq<char>>)
    requires
        node.in_place(indent),
    ensures
        node.encoded(indent, key) == node.as_stands(indent, key),
    decreases node,
{
    match node {
        Node::Text { content, epilog } => {
            lemma_built_verbatim(content, indent + 1, Seq::empty());
            lemma_comment_in_place(epilog, indent + 1, hash());
        },
        Node::List { items, prolog, epilog } => {
            lemma_comment_in_place(prolog, indent + 1, hash());
            lemma_items_in_place(items, indent + 1);
            lemma_comment_in_place(epilog, indent + 1, hash());
        },
        Node::Dict { entries, prolog, epilog } => {
            lemma_comment_in_place(prolog, indent + 1, hash());
            lemma_entries_in_place(entries, indent + 1);
            lemma_comment_in_place(epilog, indent + 1, hash());
        },
    }
}

/// Items that stand where they are written are written as they stand.
pub proof fn lemma_items_in_place(items: Seq<Node>, indent: nat)
    requires
        forall|i: int| 0 <= i < items.len() ==> (#[trigger] items[i]).in_place(indent),
    ensures
        encoded_items(items, indent) == items_as_stand(items, indent),
    decreases items,
{
    if items.len() > 0 {
        let front = items.drop_last();
        assert forall|i: int| 0 <= i < front.len() implies (#[trigger] front[i]).in_place(
            indent,
        ) by {
            assert(front[i] == items[i]);
        }
        lemma_items_in_place(front, indent);
        assert(items.last() == items[items.len() - 1]);
        lemma_in_place(items.last(), indent, None);
    }
}

/// Entries that stand where they are written are written as they stand.
pub proof fn lemma_entries_in_place(entries: Seq<Entry>, indent: nat)
    requires
        forall|i: int| 0 <= i < entries.len() ==> (#[trigger] entries[i]).in_place(indent),
    ensures
        encoded_entries(entries, indent) == entries_as_stand(entries, indent),
    decreases entries,
{
    if entries.len() > 0 {
        let front = entries.drop_last();
        assert forall|i: int| 0 <= i < front.len() implies (#[trigger] front[i]).in_place(
            indent,
        ) by {
            assert(front[i] == entries[i]);
        }
        lemma_entries_in_place(front, indent);
        let last = entries.last();
        assert(last == entries[entries.len() - 1]);
        assert(last.in_place(indent));
        lemma_comment_in_place(last.before, indent, slashes());
        lemma_in_place(last.value, indent, Some(last.key));
        assert(last.encoded(indent) == last.as_stands(indent));
    }
}

impl Document {
    /// Whether every span of the document stands where it is written:
    /// nothing has moved to another depth since it was parsed.
    pub open spec fn in_place(self) -> bool {
        comment_stands(self.hashbang, 0) && comment_stands(self.prolog, 0) && forall|i: int|
            0 <= i < self.entries.len() ==> (#[trigger] self.entries[i]).in_place(0)
    }

    /// The document as it stands: the opening lines of its values, and its
    /// spans byte for byte.
    pub open spec fn as_stands(self) -> Seq<u8> {
        comment_as_stands(self.hashbang, 0, hash_bang()) + comment_as_stands(self.prolog, 0, hash())
            + entries_as_stand(self.entries, 0)
    }
}

/// Round trip of a document. A document of which every span stands where it
/// is written is written as it stands: what was parsed and not touched comes
/// back byte for byte.
pub proof fn lemma_document_in_place(document: Document)
    requires
        document.in_place(),
    ensures
        document.encoded() == document.as_stands(),
{
    lemma_comment_in_place(document.hashbang, 0, hash_bang());
    lemma_comment_in_place(document.prolog, 0, hash());
    lemma_entries_in_place(document.entries, 0);
}

/// Writing items one after another distributes over concatenation.
pub proof fn lemma_encoded_items_concat(a: Seq<Node>, b: Seq<Node>, indent: nat)
    ensures
        encoded_items(a + b, indent) == encoded_items(a, indent) + encoded_items(b, indent),
    decreases b.len(),
{
    if b.len() == 0 {
        assert(a + b =~= a);
        assert(encoded_items(a, indent) + Seq::<u8>::empty() =~= encoded_items(a, indent));
    } else {
        lemma_encoded_items_concat(a, b.drop_last(), indent);
        assert((a + b).drop_last() =~= a + b.drop_last());
        assert((a + b).last() == b.last());
        assert(encoded_items(a + b, indent) =~= encoded_items(a, indent) + encoded_items(
            b,
            indent,
        ));
    }
}

/// Writing entries one after another distributes over concatenation.
pub proof fn lemma_encoded_entries_concat(a: Seq<Entry>, b: Seq<Entry>, indent: nat)
    ensures
        encoded_entries(a + b, indent) == encoded_entries(a, indent) + encoded_entries(b, indent),
    decreases b.len(),
{
    if b.len() == 0 {
        assert(a + b =~= a);
        assert(encoded_entries(a, indent) + Seq::<u8>::empty() =~= encoded_entries(a, indent));
    } else {
        lemma_encoded_entries_concat(a, b.drop_last(), indent);
        assert((a + b).drop_last() =~= a + b.drop_last());
        assert((a + b).last() == b.last());
        assert(encoded_entries(a + b, indent) =~= encoded_entries(a, indent) + encoded_entries(
            b,
            indent,
        ));
    }
}

/// The items of a list are written as those in front of one item, that
/// item, and those behind it.
pub proof fn lemma_encoded_items_around(items: Seq<Node>, indent: nat, at: int)
    requires
        0 <= at < items.len(),
    ensures
        encoded_items(items, indent) == encoded_items(items.take(at), indent) + items[at].encoded(
            indent,
            None,
        ) + encoded_items(items.skip(at + 1), indent),
{
    let one = seq![items[at]];
    assert(items =~= items.take(at) + one + items.skip(at + 1));
    lemma_encoded_items_concat(items.take(at) + one, items.skip(at + 1), indent);
    lemma_encoded_items_concat(items.take(at), one, indent);
    assert(one.drop_last() =~= Seq::<Node>::empty());
    assert(encoded_items(one.drop_last(), indent) =~= Seq::<u8>::empty());
    assert(encoded_items(one, indent) =~= items[at].encoded(indent, None));
}

/// The entries of a dictionary are written as those in front of one entry,
/// that entry, and those behind it.
pub proof fn lemma_encoded_entries_around(entries: Seq<Entry>, indent: nat, at: int)
    requires
        0 <= at < entries.len(),
    ensures
        encoded_entries(entries, indent) == encoded_entries(entries.take(at), indent)
            + entries[at].encoded(indent) + encoded_entries(entries.skip(at + 1), indent),
{
    let one = seq![entries[at]];
    assert(entries =~= entries.take(at) + one + entries.skip(at + 1));
    lemma_encoded_entries_concat(entries.take(at) + one, entries.skip(at + 1), indent);
    lemma_encoded_entries_concat(entries.take(at), one, indent);
    assert(one.drop_last() =~= Seq::<Entry>::empty());
    assert(encoded_entries(one.drop_last(), indent) =~= Seq::<u8>::empty());
    assert(encoded_entries(one, indent) =~= entries[at].encoded(indent));
}

/// The key under which the child that `step` leads to is written: the key
/// of the step, and none for an item of a list.
pub open spec fn key_of(step: Step) -> Option<Seq<char>> {
    match step {
        Step::Key(k) => Some(k),
        Step::Index(_) => None,
    }
}

/// The key under which the value at the end of a path is written: the key
/// of the last step, and the key of the root where there is no step.
pub open spec fn key_at(steps: Seq<Step>, from: int, key: Option<Seq<char>>) -> Option<Seq<char>> {
    if from >= steps.len() {
        key
    } else {
        key_of(steps.last())
    }
}

/// Bytes in a frame in a frame are bytes in one frame.
proof fn lemma_nest(
    outer_front: Seq<u8>,
    inner_front: Seq<u8>,
    middle: Seq<u8>,
    inner_back: Seq<u8>,
    outer_back: Seq<u8>,
)
    ensures
        outer_front + (inner_front + middle + inner_back) + outer_back == (outer_front
            + inner_front) + middle + (inner_back + outer_back),
{
    assert(outer_front + (inner_front + middle + inner_back) + outer_back =~= (outer_front
        + inner_front) + middle + (inner_back + outer_back));
}

/// Bytes in six parts, grouped around the part in the middle.
proof fn lemma_regroup(
    head: Seq<u8>,
    front: Seq<u8>,
    lead: Seq<u8>,
    middle: Seq<u8>,
    back: Seq<u8>,
    tail: Seq<u8>,
)
    ensures
        head + (front + (lead + middle) + back) + tail == (head + front + lead) + middle + (back
            + tail),
{
    assert(head + (front + (lead + middle) + back) + tail =~= (head + front + lead) + middle + (back
        + tail));
}

/// A list with one item replaced is written as the same bytes in front of
/// the item and behind it, whatever the item is replaced by.
proof fn lemma_item_frame(
    items: Seq<Node>,
    prolog: Option<Span>,
    epilog: Option<Span>,
    at: int,
    item: Node,
    indent: nat,
    key: Option<Seq<char>>,
) -> (frame: (Seq<u8>, Seq<u8>))
    requires
        0 <= at < items.len(),
    ensures
        frame.0 == heading(indent, 0x5Bu8, key, 0x5Du8) + comment_built(prolog, indent + 1, hash())
            + encoded_items(items.take(at), indent + 1),
        frame.1 == encoded_items(items.skip(at + 1), indent + 1) + comment_built(
            epilog,
            indent + 1,
            hash(),
        ),
        (Node::List { items: items.update(at, item), prolog, epilog }).encoded(indent, key)
            == frame.0 + item.encoded(indent + 1, None) + frame.1,
{
    let more = indent + 1;
    let after = items.update(at, item);
    lemma_encoded_items_around(after, more, at);
    assert(after.take(at) =~= items.take(at));
    assert(after.skip(at + 1) =~= items.skip(at + 1));
    let head = heading(indent, 0x5Bu8, key, 0x5Du8) + comment_built(prolog, more, hash());
    let before = encoded_items(items.take(at), more);
    let behind = encoded_items(items.skip(at + 1), more);
    let tail = comment_built(epilog, more, hash());
    let nothing = Seq::<u8>::empty();
    let middle = item.encoded(more, None);
    assert(nothing + middle =~= middle);
    assert(head + before + nothing =~= head + before);
    lemma_regroup(head, before, nothing, middle, behind, tail);
    (head + before, behind + tail)
}

/// A dictionary with the value of one entry replaced is written as the same
/// bytes in front of the value and behind it, whatever the value is
/// replaced by.
proof fn lemma_entry_frame(
    entries: Seq<Entry>,
    prolog: Option<Span>,
    epilog: Option<Span>,
    at: int,
    value: Node,
    indent: nat,
    key: Option<Seq<char>>,
) -> (frame: (Seq<u8>, Seq<u8>))
    requires
        0 <= at < entries.len(),
    ensures
        frame.0 == heading(indent, 0x7Bu8, key, 0x7Du8) + comment_built(prolog, indent + 1, hash())
            + encoded_entries(entries.take(at), indent + 1) + ((if entries[at].gap {
            seq![NEWLINE]
        } else {
            Seq::empty()
        }) + comment_built(entries[at].before, indent + 1, slashes())),
        frame.1 == encoded_entries(entries.skip(at + 1), indent + 1) + comment_built(
            epilog,
            indent + 1,
            hash(),
        ),
        (Node::Dict {
            entries: entries.update(at, Entry { value, ..entries[at] }),
            prolog,
            epilog,
        }).encoded(indent, key) == frame.0 + value.encoded(indent + 1, Some(entries[at].key))
            + frame.1,
{
    let more = indent + 1;
    let entry = entries[at];
    let changed = Entry { value, ..entry };
    let after = entries.update(at, changed);
    lemma_encoded_entries_around(after, more, at);
    assert(after.take(at) =~= entries.take(at));
    assert(after.skip(at + 1) =~= entries.skip(at + 1));
    let head = heading(indent, 0x7Bu8, key, 0x7Du8) + comment_built(prolog, more, hash());
    let before = encoded_entries(entries.take(at), more);
    let behind = encoded_entries(entries.skip(at + 1), more);
    let tail = comment_built(epilog, more, hash());
    let lead = (if entry.gap {
        seq![NEWLINE]
    } else {
        Seq::empty()
    }) + comment_built(entry.before, more, slashes());
    let middle = value.encoded(more, Some(entry.key));
    assert(changed.encoded(more) == lead + middle);
    lemma_regroup(head, before, lead, middle, behind, tail);
    (head + before + lead, behind + tail)
}

/// A value with one child replaced is written as the same bytes in front of
/// the child and behind it, whatever the child is replaced by.
pub proof fn lemma_child_local(
    node: Node,
    step: Step,
    child: Node,
    other: Node,
    indent: nat,
    key: Option<Seq<char>>,
) -> (frame: (Seq<u8>, Seq<u8>))
    requires
        step_into(node, step) is Ok,
    ensures
        with_child(node, step, child).encoded(indent, key) == frame.0 + child.encoded(
            indent + 1,
            key_of(step),
        ) + frame.1,
        with_child(node, step, other).encoded(indent, key) == frame.0 + other.encoded(
            indent + 1,
            key_of(step),
        ) + frame.1,
{
    match node {
        Node::Text { .. } => (Seq::empty(), Seq::empty()),
        Node::List { items, prolog, epilog } => {
            let at = step->Index_0 as int;
            let one = lemma_item_frame(items, prolog, epilog, at, child, indent, key);
            let two = lemma_item_frame(items, prolog, epilog, at, other, indent, key);
            one
        },
        Node::Dict { entries, prolog, epilog } => {
            let name = step->Key_0;
            lemma_position_of(entries, name);
            let at = position_of(entries, name);
            let one = lemma_entry_frame(entries, prolog, epilog, at, child, indent, key);
            let two = lemma_entry_frame(entries, prolog, epilog, at, other, indent, key);
            one
        },
    }
}

/// An edit is local. Where a path leads to a value, the tree is written as
/// some bytes, that value, and some more bytes; and with another value
/// in its place the tree is written as the same bytes, the other value, and
/// the same bytes behind. The lemma gives the bytes in front and behind.
pub proof fn lemma_graft_local(
    root: Node,
    steps: Seq<Step>,
    from: int,
    new: Node,
    indent: nat,
    key: Option<Seq<char>>,
) -> (frame: (Seq<u8>, Seq<u8>))
    requires
        0 <= from <= steps.len(),
        resolve_from(root, steps, from) is Ok,
    ensures
        ({
            let old = resolve_from(root, steps, from)->Ok_0;
            let depth = (indent + steps.len() - from) as nat;
            let under = key_at(steps, from, key);
            &&& root.encoded(indent, key) == frame.0 + old.encoded(depth, under) + frame.1
            &&& graft_from(root, steps, from, new).encoded(indent, key) == frame.0 + new.encoded(
                depth,
                under,
            ) + frame.1
        }),
    decreases steps.len() - from,
{
    if from >= steps.len() {
        let nothing = Seq::<u8>::empty();
        assert(root.encoded(indent, key) =~= nothing + root.encoded(indent, key) + nothing);
        assert(new.encoded(indent, key) =~= nothing + new.encoded(indent, key) + nothing);
        (nothing, nothing)
    } else {
        let step = steps[from];
        let child = step_into(root, step)->Ok_0;
        let grafted = graft_from(child, steps, from + 1, new);
        let old = resolve_from(root, steps, from)->Ok_0;
        let depth = (indent + steps.len() - from) as nat;
        let under = key_at(steps, from, key);
        let inner = lemma_graft_local(child, steps, from + 1, new, indent + 1, key_of(step));
        assert(key_at(steps, from + 1, key_of(step)) == under);
        let outer = lemma_child_local(root, step, child, grafted, indent, key);
        lemma_with_child(root, step, child);
        assert(with_child(root, step, child) == root);
        assert(graft_from(root, steps, from, new) == with_child(root, step, grafted));
        lemma_nest(outer.0, inner.0, old.encoded(depth, under), inner.1, outer.1);
        lemma_nest(outer.0, inner.0, new.encoded(depth, under), inner.1, outer.1);
        (outer.0 + inner.0, inner.1 + outer.1)
    }
}

/// An edit that changes nothing leaves the bytes as they were: reading the
/// value that a path leads to and putting it back gives a tree that is
/// written as the tree was.
pub proof fn lemma_same_bytes(root: Node, steps: Seq<Step>, indent: nat, key: Option<Seq<char>>)
    requires
        resolve_from(root, steps, 0) is Ok,
    ensures
        graft_from(root, steps, 0, resolve_from(root, steps, 0)->Ok_0).encoded(indent, key)
            == root.encoded(indent, key),
{
    lemma_graft_same(root, steps, 0);
}

} // verus!
