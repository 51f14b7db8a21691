//! The mathematical model of the value tree and of its encoding.
//!
//! A document is a tree of text, list and dictionary values. Comments hang
//! on the values: a text has one after it, a list and a dictionary have one
//! at their start and one after them, and an entry of a dictionary has one in
//! front of it. Encoding walks the tree from the top and writes every value
//! one tab deeper than the value that holds it.

use crate::limits::{CommentErr, MAX_INDENT};
use crate::lines::{has_newline, tabs, NEWLINE};
use crate::span::Span;
use crate::strings::utf8;
use vstd::prelude::*;

verus! {

/// A value of the tree.
pub enum Node {
    /// Text, with the comment after it.
    Text { content: Span, epilog: Option<Span> },
    /// Values in order, with the comments at the start and after.
    List { items: Seq<Node>, prolog: Option<Span>, epilog: Option<Span> },
    /// Keyed entries in order, with the comments at the start and after.
    Dict { entries: Seq<Entry>, prolog: Option<Span>, epilog: Option<Span> },
}

/// One association of a dictionary or of a document.
pub struct Entry {
    /// The key.
    pub key: Seq<char>,
    /// Whether a blank line stands in front of the entry and its comment.
    pub gap: bool,
    /// The comment in front of the entry.
    pub before: Option<Span>,
    /// The value under the key.
    pub value: Node,
}

/// A whole document: the entries of its top level and the two comments that
/// only a document has.
pub struct Document {
    /// The entries of the top level.
    pub entries: Seq<Entry>,
    /// The first line of the document, where it starts with `#!`.
    pub hashbang: Option<Span>,
    /// The comment that introduces the document.
    pub prolog: Option<Span>,
}

/// The marker of a comment at the start of or after a value: `#`.
pub open spec fn hash() -> Seq<u8> {
    seq![0x23u8]
}

/// The marker of the first line of a document: `#!`.
pub open spec fn hash_bang() -> Seq<u8> {
    seq![0x23u8, 0x21u8]
}

/// The marker of a comment in front of an entry: `//`.
pub open spec fn slashes() -> Seq<u8> {
    seq![0x2Fu8, 0x2Fu8]
}

/// Whether a key can stand in a document: no byte of it is a line
/// terminator.
pub open spec fn key_ok(key: Seq<char>) -> bool {
    !has_newline(utf8(key))
}

/// Index of the first entry under `key`, or `entries.len()` when there is
/// none.
pub open spec fn position_of(entries: Seq<Entry>, key: Seq<char>) -> int
    decreases entries.len(),
{
    if entries.len() == 0 {
        0
    } else if entries[0].key == key {
        0
    } else {
        1 + position_of(entries.drop_first(), key)
    }
}

/// Whether no two entries have the same key.
pub open spec fn unique_keys(entries: Seq<Entry>) -> bool {
    forall|i: int, j: int|
        0 <= i < entries.len() && 0 <= j < entries.len() && i != j ==> (#[trigger] entries[i]).key
            != (#[trigger] entries[j]).key
}

/// The keys of `entries`, in order.
pub open spec fn keys_of(entries: Seq<Entry>) -> Seq<Seq<char>> {
    Seq::new(entries.len(), |i: int| entries[i].key)
}

/// `entries` after `entry` has been inserted: in the place of the entry that
/// had its key, or at the end where none had.
pub open spec fn inserted(entries: Seq<Entry>, entry: Entry) -> Seq<Entry> {
    let at = position_of(entries, entry.key);
    if at < entries.len() {
        entries.update(at, entry)
    } else {
        entries.push(entry)
    }
}

/// `position_of` is in range, points at an entry under the key when it is
/// inside the sequence, and no entry before it is under the key.
pub proof fn lemma_position_of(entries: Seq<Entry>, key: Seq<char>)
    ensures
        0 <= position_of(entries, key) <= entries.len(),
        position_of(entries, key) < entries.len() ==> entries[position_of(entries, key)].key
            == key,
        forall|j: int| 0 <= j < position_of(entries, key) ==> (#[trigger] entries[j]).key != key,
    decreases entries.len(),
{
    if entries.len() > 0 && entries[0].key != key {
        let rest = entries.drop_first();
        lemma_position_of(rest, key);
        assert forall|j: int| 0 <= j < position_of(entries, key) implies (
        #[trigger] entries[j]).key != key by {
            if j > 0 {
                assert(entries[j] == rest[j - 1]);
            }
        }
    }
}

/// The position of a key is the only index in range that is under the key,
/// or the end, with no entry under the key before it.
pub proof fn lemma_position_of_is(entries: Seq<Entry>, key: Seq<char>, at: int)
    requires
        0 <= at <= entries.len(),
        at < entries.len() ==> entries[at].key == key,
        forall|j: int| 0 <= j < at ==> (#[trigger] entries[j]).key != key,
    ensures
        position_of(entries, key) == at,
{
    lemma_position_of(entries, key);
    let p = position_of(entries, key);
    if p < at {
        assert(entries[p].key != key);
    } else if at < p {
        assert(entries[at].key != key);
    }
}

/// Insertion keeps the order: the keys stay as they were where the key was
/// there already, and the key is added at the end where it was not. It
/// keeps keys apart that were apart, and afterwards the entry is found under
/// its key.
pub proof fn lemma_inserted(entries: Seq<Entry>, entry: Entry)
    ensures
        position_of(entries, entry.key) < entries.len() ==> keys_of(inserted(entries, entry))
            == keys_of(entries),
        position_of(entries, entry.key) == entries.len() ==> keys_of(inserted(entries, entry))
            == keys_of(entries).push(entry.key),
        unique_keys(entries) ==> unique_keys(inserted(entries, entry)),
        position_of(inserted(entries, entry), entry.key) == position_of(entries, entry.key),
        inserted(entries, entry)[position_of(entries, entry.key)] == entry,
{
    lemma_position_of(entries, entry.key);
    let at = position_of(entries, entry.key);
    let after = inserted(entries, entry);
    if at < entries.len() {
        assert(keys_of(after) =~= keys_of(entries));
    } else {
        assert(keys_of(after) =~= keys_of(entries).push(entry.key));
    }
    assert forall|j: int| 0 <= j < at implies (#[trigger] after[j]).key != entry.key by {
        assert(after[j] == entries[j]);
    }
    lemma_position_of_is(after, entry.key, at);
    if unique_keys(entries) {
        assert forall|i: int, j: int|
            0 <= i < after.len() && 0 <= j < after.len() && i != j implies (#[trigger] after[i]).key
            != (#[trigger] after[j]).key by {
            if at < entries.len() {
                assert(after[i].key == entries[i].key);
                assert(after[j].key == entries[j].key);
            } else {
                if i < at && j < at {
                    assert(after[i] == entries[i]);
                    assert(after[j] == entries[j]);
                } else if i < at {
                    assert(after[i] == entries[i]);
                } else {
                    assert(after[j] == entries[j]);
                }
            }
        }
    }
}

/// The first of two faults in the order of writing.
pub open spec fn first_fault(a: Option<CommentErr>, b: Option<CommentErr>) -> Option<CommentErr> {
    if a is Some {
        a
    } else {
        b
    }
}

/// What a comment that may be missing is written as.
pub open spec fn comment_built(c: Option<Span>, indent: nat, marker: Seq<u8>) -> Seq<u8> {
    match c {
        Some(span) => span.built(indent, marker),
        None => Seq::empty(),
    }
}

/// The ceiling that stands against writing a comment that may be missing.
pub open spec fn comment_fault(c: Option<Span>, indent: nat) -> Option<CommentErr> {
    match c {
        Some(span) => span.fault(indent),
        None => None,
    }
}

/// Whether a comment that may be missing is well formed.
pub open spec fn comment_wf(c: Option<Span>) -> bool {
    match c {
        Some(span) => span.wf(),
        None => true,
    }
}

/// The line that opens a value: the indentation, then the key between the
/// two brackets of the value's kind. A value without a key, as every item of
/// a list is, has nothing between the brackets.
pub open spec fn heading(indent: nat, open: u8, key: Option<Seq<char>>, close: u8) -> Seq<u8> {
    tabs(indent) + seq![open] + match key {
        Some(k) => utf8(k),
        None => Seq::empty(),
    } + seq![close, NEWLINE]
}

impl Node {
    /// The value as it is written at `indent` under `key`.
    pub open spec fn encoded(self, indent: nat, key: Option<Seq<char>>) -> Seq<u8>
        decreases self,
    {
        match self {
            Node::Text { content, epilog } => heading(indent, 0x3Cu8, key, 0x3Eu8) + content.built(
                indent + 1,
                Seq::empty(),
            ) + comment_built(epilog, indent + 1, hash()),
            Node::List { items, prolog, epilog } => heading(indent, 0x5Bu8, key, 0x5Du8)
                + comment_built(prolog, indent + 1, hash()) + encoded_items(items, indent + 1)
                + comment_built(epilog, indent + 1, hash()),
            Node::Dict { entries, prolog, epilog } => heading(indent, 0x7Bu8, key, 0x7Du8)
                + comment_built(prolog, indent + 1, hash()) + encoded_entries(entries, indent + 1)
                + comment_built(epilog, indent + 1, hash()),
        }
    }

    /// The first ceiling, in the order of writing, that stands against
    /// writing the value at `indent`.
    pub open spec fn fault(self, indent: nat) -> Option<CommentErr>
        decreases self,
    {
        if indent > MAX_INDENT {
            Some(CommentErr::IndentTooLarge(indent as usize))
        } else {
            match self {
                Node::Text { content, epilog } => first_fault(
                    content.fault(indent + 1),
                    comment_fault(epilog, indent + 1),
                ),
                Node::List { items, prolog, epilog } => first_fault(
                    comment_fault(prolog, indent + 1),
                    first_fault(fault_items(items, indent + 1), comment_fault(epilog, indent + 1)),
                ),
                Node::Dict { entries, prolog, epilog } => first_fault(
                    comment_fault(prolog, indent + 1),
                    first_fault(
                        fault_entries(entries, indent + 1),
                        comment_fault(epilog, indent + 1),
                    ),
                ),
            }
        }
    }

    /// Whether every span of the value is well formed and every key can
    /// stand in a document.
    pub open spec fn wf(self) -> bool
        decreases self,
    {
        match self {
            Node::Text { content, epilog } => content.wf() && comment_wf(epilog),
            Node::List { items, prolog, epilog } => comment_wf(prolog) && comment_wf(epilog)
                && forall|i: int| 0 <= i < items.len() ==> (#[trigger] items[i]).wf(),
            Node::Dict { entries, prolog, epilog } => comment_wf(prolog) && comment_wf(epilog)
                && forall|i: int| 0 <= i < entries.len() ==> (#[trigger] entries[i]).wf(),
        }
    }
}

impl Entry {
    /// The entry as it is written at `indent`: a blank line where `gap` is
    /// set, the comment in front, then the value under the key.
    pub open spec fn encoded(self, indent: nat) -> Seq<u8>
        decreases self,
    {
        (if self.gap {
            seq![NEWLINE]
        } else {
            Seq::empty()
        }) + comment_built(self.before, indent, slashes()) + self.value.encoded(
            indent,
            Some(self.key),
        )
    }

    /// The first ceiling that stands against writing the entry at `indent`.
    pub open spec fn fault(self, indent: nat) -> Option<CommentErr>
        decreases self,
    {
        first_fault(comment_fault(self.before, indent), self.value.fault(indent))
    }

    /// Whether the key can stand in a document and the comment and the value
    /// are well formed.
    pub open spec fn wf(self) -> bool
        decreases self,
    {
        key_ok(self.key) && comment_wf(self.before) && self.value.wf()
    }
}

/// The items of a list as they are written at `indent`, one after another.
pub open spec fn encoded_items(items: Seq<Node>, indent: nat) -> Seq<u8>
    decreases items,
{
    if items.len() == 0 {
        Seq::empty()
    } else {
        encoded_items(items.drop_last(), indent) + items.last().encoded(indent, None)
    }
}

/// The entries of a dictionary as they are written at `indent`, one after
/// another.
pub open spec fn encoded_entries(entries: Seq<Entry>, indent: nat) -> Seq<u8>
    decreases entries,
{
    if entries.len() == 0 {
        Seq::empty()
    } else {
        encoded_entries(entries.drop_last(), indent) + entries.last().encoded(indent)
    }
}

/// The first ceiling that stands against writing the items of a list.
pub open spec fn fault_items(items: Seq<Node>, indent: nat) -> Option<CommentErr>
    decreases items,
{
    if items.len() == 0 {
        None
    } else {
        first_fault(fault_items(items.drop_last(), indent), items.last().fault(indent))
    }
}

/// The first ceiling that stands against writing the entries of a
/// dictionary.
pub open spec fn fault_entries(entries: Seq<Entry>, indent: nat) -> Option<CommentErr>
    decreases entries,
{
    if entries.len() == 0 {
        None
    } else {
        first_fault(fault_entries(entries.drop_last(), indent), entries.last().fault(indent))
    }
}

/// One more item: its fault comes after those of the items before it.
pub proof fn lemma_fault_items_take(items: Seq<Node>, indent: nat, k: int)
    requires
        0 <= k < items.len(),
    ensures
        fault_items(items.take(k + 1), indent) == first_fault(
            fault_items(items.take(k), indent),
            items[k].fault(indent),
        ),
{
    assert(items.take(k + 1).drop_last() =~= items.take(k));
}

/// A fault among the first items is the fault of all the items.
pub proof fn lemma_fault_items_prefix(items: Seq<Node>, indent: nat, k: int)
    requires
        0 <= k <= items.len(),
        fault_items(items.take(k), indent) is Some,
    ensures
        fault_items(items, indent) == fault_items(items.take(k), indent),
    decreases items.len() - k,
{
    if k < items.len() {
        lemma_fault_items_take(items, indent, k);
        lemma_fault_items_prefix(items, indent, k + 1);
    } else {
        assert(items.take(k) =~= items);
    }
}

/// Where nothing stands against writing the items, nothing stands against
/// writing any one of them.
pub proof fn lemma_fault_items_none(items: Seq<Node>, indent: nat)
    requires
        fault_items(items, indent) is None,
    ensures
        forall|i: int| 0 <= i < items.len() ==> (#[trigger] items[i]).fault(indent) is None,
    decreases items.len(),
{
    if items.len() > 0 {
        let front = items.drop_last();
        lemma_fault_items_none(front, indent);
        assert forall|i: int| 0 <= i < items.len() implies (#[trigger] items[i]).fault(
            indent,
        ) is None by {
            if i < front.len() {
                assert(items[i] == front[i]);
            }
        }
    }
}

/// One more item: it is written behind the items before it.
pub proof fn lemma_encoded_items_take(items: Seq<Node>, indent: nat, k: int)
    requires
        0 <= k < items.len(),
    ensures
        encoded_items(items.take(k + 1), indent) == encoded_items(items.take(k), indent)
            + items[k].encoded(indent, None),
{
    assert(items.take(k + 1).drop_last() =~= items.take(k));
}

/// One more entry: its fault comes after those of the entries before it.
pub proof fn lemma_fault_entries_take(entries: Seq<Entry>, indent: nat, k: int)
    requires
        0 <= k < entries.len(),
    ensures
        fault_entries(entries.take(k + 1), indent) == first_fault(
            fault_entries(entries.take(k), indent),
            entries[k].fault(indent),
        ),
{
    assert(entries.take(k + 1).drop_last() =~= entries.take(k));
}

/// A fault among the first entries is the fault of all the entries.
pub proof fn lemma_fault_entries_prefix(entries: Seq<Entry>, indent: nat, k: int)
    requires
        0 <= k <= entries.len(),
        fault_entries(entries.take(k), indent) is Some,
    ensures
        fault_entries(entries, indent) == fault_entries(entries.take(k), indent),
    decreases entries.len() - k,
{
    if k < entries.len() {
        lemma_fault_entries_take(entries, indent, k);
        lemma_fault_entries_prefix(entries, indent, k + 1);
    } else {
        assert(entries.take(k) =~= entries);
    }
}

/// Where nothing stands against writing the entries, nothing stands against
/// writing any one of them.
pub proof fn lemma_fault_entries_none(entries: Seq<Entry>, indent: nat)
    requires
        fault_entries(entries, indent) is None,
    ensures
        forall|i: int| 0 <= i < entries.len() ==> (#[trigger] entries[i]).fault(indent) is None,
    decreases entries.len(),
{
    if entries.len() > 0 {
        let front = entries.drop_last();
        lemma_fault_entries_none(front, indent);
        assert forall|i: int| 0 <= i < entries.len() implies (#[trigger] entries[i]).fault(
            indent,
        ) is None by {
            if i < front.len() {
                assert(entries[i] == front[i]);
            }
        }
    }
}

/// One more entry: it is written behind the entries before it.
pub proof fn lemma_encoded_entries_take(entries: Seq<Entry>, indent: nat, k: int)
    requires
        0 <= k < entries.len(),
    ensures
        encoded_entries(entries.take(k + 1), indent) == encoded_entries(entries.take(k), indent)
            + entries[k].encoded(indent),
{
    assert(entries.take(k + 1).drop_last() =~= entries.take(k));
}

impl Document {
    /// The document as it is written: the `#!` line, the introduction, then
    /// the entries without indentation.
    pub open spec fn encoded(self) -> Seq<u8> {
        comment_built(self.hashbang, 0, hash_bang()) + comment_built(self.prolog, 0, hash())
            + encoded_entries(self.entries, 0)
    }

    /// The first ceiling that stands against writing the document.
    pub open spec fn fault(self) -> Option<CommentErr> {
        first_fault(
            comment_fault(self.hashbang, 0),
            first_fault(comment_fault(self.prolog, 0), fault_entries(self.entries, 0)),
        )
    }

    /// Whether every span of the document is well formed and every key can
    /// stand in it.
    pub open spec fn wf(self) -> bool {
        comment_wf(self.hashbang) && comment_wf(self.prolog) && forall|i: int|
            0 <= i < self.entries.len() ==> (#[trigger] self.entries[i]).wf()
    }
}

} // verus!
