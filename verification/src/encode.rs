//! Writing the value tree.
//!
//! A value is written in two passes. The first looks for a ceiling of the
//! encoding that stands against writing it; the second writes. So a value
//! that cannot be written leaves the output as it was.

use crate::comments::{span_of, Comment};
use crate::limits::{CommentErr, MAX_INDENT};
use crate::lines::{tabs, NEWLINE};
use crate::strings::{lemma_utf8_ascii_text, push_newline, push_str, push_tabs, utf8};
use crate::tree::{
    comment_built, comment_fault, encoded_entries, encoded_items, fault_entries, fault_items,
    hash, hash_bang, heading, lemma_encoded_entries_take, lemma_encoded_items_take,
    lemma_fault_entries_none, lemma_fault_entries_prefix, lemma_fault_entries_take,
    lemma_fault_items_none, lemma_fault_items_prefix, lemma_fault_items_take, slashes, Entry, Node,
};
use crate::values::{entries_of, key_text, models, Dict, File, Keyed, List, Text, Value};
use vstd::prelude::*;
use vstd::string::StringSliceAdditionalSpecFns;
use vstd::utf8::is_ascii_chars;

verus! {

/// The bytes of ASCII text are its characters.
proof fn lemma_literal(s: &str, bytes: Seq<u8>)
    requires
        is_ascii_chars(s@),
        s@.len() == bytes.len(),
        forall|i: int| 0 <= i < bytes.len() ==> s@[i] as u8 == bytes[i],
    ensures
        s.spec_bytes() == bytes,
{
    lemma_utf8_ascii_text(s@);
    assert(s.spec_bytes() =~= bytes);
}

/// Tells whether a ceiling stands against writing a comment that may be
/// missing.
fn check_comment(c: &Option<Comment>, indent: usize) -> (r: Result<(), CommentErr>)
    ensures
        match r {
            Ok(()) => comment_fault(span_of(*c), indent as nat) is None,
            Err(e) => comment_fault(span_of(*c), indent as nat) == Some(e),
        },
{
    match c {
        Some(comment) => comment.gfm.check(indent),
        None => Ok(()),
    }
}

/// Writes a comment that may be missing.
fn emit_comment(c: &Option<Comment>, indent: usize, marker: &str, into: &mut String)
    requires
        comment_fault(span_of(*c), indent as nat) is None,
    ensures
        utf8(final(into)@) == utf8(old(into)@) + comment_built(
            span_of(*c),
            indent as nat,
            marker.spec_bytes(),
        ),
{
    match c {
        Some(comment) => {
            let _ = comment.gfm.build(indent, marker, into);
        },
        None => {
            assert(utf8(into@) + Seq::<u8>::empty() =~= utf8(into@));
        },
    }
}

/// Writes the line that opens a value.
fn emit_heading(indent: usize, open: &str, key: Option<&str>, close: &str, into: &mut String)
    requires
        open.spec_bytes().len() == 1,
        close.spec_bytes().len() == 2,
        close.spec_bytes()[1] == NEWLINE,
    ensures
        utf8(final(into)@) == utf8(old(into)@) + heading(
            indent as nat,
            open.spec_bytes()[0],
            key_text(key),
            close.spec_bytes()[0],
        ),
{
    let ghost base = utf8(into@);
    push_tabs(into, indent);
    push_str(into, open);
    match key {
        Some(k) => {
            push_str(into, k);
        },
        None => {},
    }
    push_str(into, close);
    proof {
        let o = open.spec_bytes();
        let c = close.spec_bytes();
        assert(o =~= seq![o[0]]);
        assert(c =~= seq![c[0], NEWLINE]);
        let k = match key_text(key) {
            Some(k) => utf8(k),
            None => Seq::<u8>::empty(),
        };
        assert(utf8(into@) =~= base + (tabs(indent as nat) + seq![o[0]] + k + seq![c[0], NEWLINE]));
    }
}

impl<'a> Text<'a> {
    /// Tells whether a ceiling of the encoding stands against writing the
    /// text at `indent`, and which.
    pub fn check(&self, indent: usize) -> (r: Result<(), CommentErr>)
        ensures
            match r {
                Ok(()) => self@.fault(indent as nat) is None,
                Err(e) => self@.fault(indent as nat) == Some(e),
            },
    {
        if indent > MAX_INDENT {
            return Err(CommentErr::IndentTooLarge(indent));
        }
        match self.content.check(indent + 1) {
            Err(e) => Err(e),
            Ok(()) => check_comment(&self.epilog, indent + 1),
        }
    }

    /// Writes the text at `indent` under `key`, at the end of `into`: the
    /// line `<key>`, then one tab deeper the content and the comment after
    /// it. A text without a key, as an item of a list is, opens with `<>`.
    ///
    /// The content is always written, as it is: a text without content is
    /// written as one line of nothing but its indentation, and is not taken
    /// for a text that is missing.
    pub fn emit(&self, indent: usize, key: Option<&str>, into: &mut String)
        requires
            self@.fault(indent as nat) is None,
        ensures
            utf8(final(into)@) == utf8(old(into)@) + self@.encoded(indent as nat, key_text(key)),
    {
        let ghost base = utf8(into@);
        proof {
            reveal_strlit("<");
            reveal_strlit(">\n");
            reveal_strlit("");
            reveal_strlit("#");
            lemma_literal("<", seq![0x3Cu8]);
            lemma_literal(">\n", seq![0x3Eu8, NEWLINE]);
            lemma_literal("", Seq::<u8>::empty());
            lemma_literal("#", hash());
        }
        emit_heading(indent, "<", key, ">\n", into);
        let _ = self.content.build(indent + 1, "", into);
        emit_comment(&self.epilog, indent + 1, "#", into);
        proof {
            let depth = indent as nat + 1;
            assert(utf8(into@) =~= base + (heading(indent as nat, 0x3Cu8, key_text(key), 0x3Eu8)
                + self.content@.built(depth, Seq::empty()) + comment_built(
                span_of(self.epilog),
                depth,
                hash(),
            )));
        }
    }

    /// Writes the text at `indent` under `key`, at the end of `into`, or
    /// writes nothing and tells which ceiling of the encoding stands against
    /// it.
    pub fn build(&self, indent: usize, key: Option<&str>, into: &mut String) -> (r: Result<
        (),
        CommentErr,
    >)
        ensures
            match r {
                Ok(()) => self@.fault(indent as nat) is None && utf8(final(into)@) == utf8(
                    old(into)@,
                ) + self@.encoded(indent as nat, key_text(key)),
                Err(e) => self@.fault(indent as nat) == Some(e) && final(into)@ == old(into)@,
            },
    {
        match self.check(indent) {
            Err(e) => Err(e),
            Ok(()) => {
                self.emit(indent, key, into);
                Ok(())
            },
        }
    }
}

/// Tells whether a ceiling stands against writing the entries of `vec` at
/// `indent`, and which.
fn check_entries<'a>(vec: &Vec<Keyed<'a>>, indent: usize) -> (r: Result<(), CommentErr>)
    requires
        indent <= MAX_INDENT + 1,
    ensures
        match r {
            Ok(()) => fault_entries(entries_of(vec@), indent as nat) is None,
            Err(e) => fault_entries(entries_of(vec@), indent as nat) == Some(e),
        },
    decreases vec,
{
    let ghost entries = entries_of(vec@);
    let mut k: usize = 0;
    proof {
        assert(entries.take(0) =~= Seq::<Entry>::empty());
    }
    while k < vec.len()
        invariant
            k <= vec@.len(),
            entries == entries_of(vec@),
            fault_entries(entries.take(k as int), indent as nat) is None,
        decreases vec@.len() - k,
    {
        proof {
            lemma_fault_entries_take(entries, indent as nat, k as int);
        }
        let keyed = &vec[k];
        let found = match check_comment(&keyed.before, indent) {
            Err(e) => Err(e),
            Ok(()) => keyed.value.check(indent),
        };
        match found {
            Err(e) => {
                proof {
                    lemma_fault_entries_prefix(entries, indent as nat, k + 1);
                }
                return Err(e);
            },
            Ok(()) => {},
        }
        k += 1;
    }
    proof {
        assert(entries.take(k as int) =~= entries);
    }
    Ok(())
}

/// Writes the entries of `vec` at `indent`, one after another.
fn emit_entries<'a>(vec: &Vec<Keyed<'a>>, indent: usize, into: &mut String)
    requires
        fault_entries(entries_of(vec@), indent as nat) is None,
    ensures
        utf8(final(into)@) == utf8(old(into)@) + encoded_entries(entries_of(vec@), indent as nat),
    decreases vec,
{
    let ghost base = utf8(into@);
    let ghost entries = entries_of(vec@);
    let mut k: usize = 0;
    proof {
        assert(entries.take(0) =~= Seq::<Entry>::empty());
        assert(base + Seq::<u8>::empty() =~= base);
        lemma_fault_entries_none(entries, indent as nat);
        reveal_strlit("//");
        lemma_literal("//", slashes());
    }
    while k < vec.len()
        invariant
            k <= vec@.len(),
            entries == entries_of(vec@),
            "//".spec_bytes() == slashes(),
            forall|i: int| 0 <= i < entries.len() ==> (#[trigger] entries[i]).fault(indent as nat) is None,
            utf8(into@) == base + encoded_entries(entries.take(k as int), indent as nat),
        decreases vec@.len() - k,
    {
        let ghost before = utf8(into@);
        proof {
            lemma_encoded_entries_take(entries, indent as nat, k as int);
            assert(entries[k as int].fault(indent as nat) is None);
        }
        let keyed = &vec[k];
        if keyed.gap {
            push_newline(into);
        }
        emit_comment(&keyed.before, indent, "//", into);
        keyed.value.emit(indent, Some(keyed.key.as_str()), into);
        proof {
            assert(utf8(into@) =~= before + entries[k as int].encoded(indent as nat));
            assert(utf8(into@) =~= base + encoded_entries(entries.take(k + 1), indent as nat));
        }
        k += 1;
    }
    proof {
        assert(entries.take(k as int) =~= entries);
    }
}

impl<'a> List<'a> {
    /// Tells whether a ceiling of the encoding stands against writing the
    /// list at `indent`, and which: the first in the order of writing.
    pub fn check(&self, indent: usize) -> (r: Result<(), CommentErr>)
        ensures
            match r {
                Ok(()) => self@.fault(indent as nat) is None,
                Err(e) => self@.fault(indent as nat) == Some(e),
            },
        decreases self,
    {
        if indent > MAX_INDENT {
            return Err(CommentErr::IndentTooLarge(indent));
        }
        let more = indent + 1;
        match check_comment(&self.prolog, more) {
            Err(e) => {
                return Err(e);
            },
            Ok(()) => {},
        }
        let ghost items = models(self.vec@);
        let mut k: usize = 0;
        proof {
            assert(items.take(0) =~= Seq::<Node>::empty());
        }
        while k < self.vec.len()
            invariant
                k <= self.vec@.len(),
                items == models(self.vec@),
                indent <= MAX_INDENT,
                more == indent + 1,
                comment_fault(span_of(self.prolog), more as nat) is None,
                fault_items(items.take(k as int), more as nat) is None,
            decreases self.vec@.len() - k,
        {
            proof {
                lemma_fault_items_take(items, more as nat, k as int);
            }
            match self.vec[k].check(more) {
                Err(e) => {
                    proof {
                        lemma_fault_items_prefix(items, more as nat, k + 1);
                    }
                    return Err(e);
                },
                Ok(()) => {},
            }
            k += 1;
        }
        proof {
            assert(items.take(k as int) =~= items);
        }
        check_comment(&self.epilog, more)
    }

    /// Writes the list at `indent` under `key`, at the end of `into`: the
    /// line `[key]`, then one tab deeper the comment at the start, the items
    /// in order and the comment after them.
    pub fn emit(&self, indent: usize, key: Option<&str>, into: &mut String)
        requires
            self@.fault(indent as nat) is None,
        ensures
            utf8(final(into)@) == utf8(old(into)@) + self@.encoded(indent as nat, key_text(key)),
        decreases self,
    {
        let ghost base = utf8(into@);
        let ghost items = models(self.vec@);
        let ghost depth = indent as nat + 1;
        proof {
            reveal_strlit("[");
            reveal_strlit("]\n");
            reveal_strlit("#");
            lemma_literal("[", seq![0x5Bu8]);
            lemma_literal("]\n", seq![0x5Du8, NEWLINE]);
            lemma_literal("#", hash());
            lemma_fault_items_none(items, depth);
        }
        emit_heading(indent, "[", key, "]\n", into);
        let more = indent + 1;
        emit_comment(&self.prolog, more, "#", into);
        let ghost head = utf8(into@);
        let mut k: usize = 0;
        proof {
            assert(items.take(0) =~= Seq::<Node>::empty());
            assert(head + Seq::<u8>::empty() =~= head);
        }
        while k < self.vec.len()
            invariant
                k <= self.vec@.len(),
                items == models(self.vec@),
                more == indent + 1,
                forall|i: int| 0 <= i < items.len() ==> (#[trigger] items[i]).fault(more as nat) is None,
                utf8(into@) == head + encoded_items(items.take(k as int), more as nat),
            decreases self.vec@.len() - k,
        {
            proof {
                lemma_encoded_items_take(items, more as nat, k as int);
                assert(items[k as int].fault(more as nat) is None);
            }
            self.vec[k].emit(more, None, into);
            proof {
                assert(utf8(into@) =~= head + encoded_items(items.take(k + 1), more as nat));
            }
            k += 1;
        }
        proof {
            assert(items.take(k as int) =~= items);
        }
        emit_comment(&self.epilog, more, "#", into);
        proof {
            assert(utf8(into@) =~= base + (heading(indent as nat, 0x5Bu8, key_text(key), 0x5Du8)
                + comment_built(span_of(self.prolog), depth, hash()) + encoded_items(items, depth)
                + comment_built(span_of(self.epilog), depth, hash())));
        }
    }

    /// Writes the list at `indent` under `key`, at the end of `into`, or
    /// writes nothing and tells which ceiling of the encoding stands against
    /// it.
    pub fn build(&self, indent: usize, key: Option<&str>, into: &mut String) -> (r: Result<
        (),
        CommentErr,
    >)
        ensures
            match r {
                Ok(()) => self@.fault(indent as nat) is None && utf8(final(into)@) == utf8(
                    old(into)@,
                ) + self@.encoded(indent as nat, key_text(key)),
                Err(e) => self@.fault(indent as nat) == Some(e) && final(into)@ == old(into)@,
            },
    {
        match self.check(indent) {
            Err(e) => Err(e),
            Ok(()) => {
                self.emit(indent, key, into);
                Ok(())
            },
        }
    }
}

impl<'a> Dict<'a> {
    /// Tells whether a ceiling of the encoding stands against writing the
    /// dictionary at `indent`, and which: the first in the order of writing.
    pub fn check(&self, indent: usize) -> (r: Result<(), CommentErr>)
        ensures
            match r {
                Ok(()) => self@.fault(indent as nat) is None,
                Err(e) => self@.fault(indent as nat) == Some(e),
            },
        decreases self,
    {
        if indent > MAX_INDENT {
            return Err(CommentErr::IndentTooLarge(indent));
        }
        let more = indent + 1;
        match check_comment(&self.prolog, more) {
            Err(e) => Err(e),
            Ok(()) => match check_entries(&self.vec, more) {
                Err(e) => Err(e),
                Ok(()) => check_comment(&self.epilog, more),
            },
        }
    }

    /// Writes the dictionary at `indent` under `key`, at the end of `into`:
    /// the line `{key}`, then one tab deeper the comment at the start, the
    /// entries in order and the comment after them. Every entry is written
    /// as a blank line where its `gap` is set, its comment behind `//`, and
    /// its value under its key.
    pub fn emit(&self, indent: usize, key: Option<&str>, into: &mut String)
        requires
            self@.fault(indent as nat) is None,
        ensures
            utf8(final(into)@) == utf8(old(into)@) + self@.encoded(indent as nat, key_text(key)),
        decreases self,
    {
        let ghost base = utf8(into@);
        let ghost depth = indent as nat + 1;
        proof {
            reveal_strlit("{");
            reveal_strlit("}\n");
            reveal_strlit("#");
            lemma_literal("{", seq![0x7Bu8]);
            lemma_literal("}\n", seq![0x7Du8, NEWLINE]);
            lemma_literal("#", hash());
        }
        emit_heading(indent, "{", key, "}\n", into);
        let more = indent + 1;
        emit_comment(&self.prolog, more, "#", into);
        emit_entries(&self.vec, more, into);
        emit_comment(&self.epilog, more, "#", into);
        proof {
            assert(utf8(into@) =~= base + (heading(indent as nat, 0x7Bu8, key_text(key), 0x7Du8)
                + comment_built(span_of(self.prolog), depth, hash()) + encoded_entries(
                entries_of(self.vec@),
                depth,
            ) + comment_built(span_of(self.epilog), depth, hash())));
        }
    }

    /// Writes the dictionary at `indent` under `key`, at the end of `into`,
    /// or writes nothing and tells which ceiling of the encoding stands
    /// against it.
    pub fn build(&self, indent: usize, key: Option<&str>, into: &mut String) -> (r: Result<
        (),
        CommentErr,
    >)
        ensures
            match r {
                Ok(()) => self@.fault(indent as nat) is None && utf8(final(into)@) == utf8(
                    old(into)@,
                ) + self@.encoded(indent as nat, key_text(key)),
                Err(e) => self@.fault(indent as nat) == Some(e) && final(into)@ == old(into)@,
            },
    {
        match self.check(indent) {
            Err(e) => Err(e),
            Ok(()) => {
                self.emit(indent, key, into);
                Ok(())
            },
        }
    }
}

impl<'a> Value<'a> {
    /// Tells whether a ceiling of the encoding stands against writing the
    /// value at `indent`, and which: the first in the order of writing.
    pub fn check(&self, indent: usize) -> (r: Result<(), CommentErr>)
        ensures
            match r {
                Ok(()) => self@.fault(indent as nat) is None,
                Err(e) => self@.fault(indent as nat) == Some(e),
            },
        decreases self,
    {
        proof {
            self.lemma_model();
        }
        match self {
            Value::Text(text) => text.check(indent),
            Value::List(list) => list.check(indent),
            Value::Dict(dict) => dict.check(indent),
        }
    }

    /// Writes the value at `indent` under `key`, at the end of `into`.
    pub fn emit(&self, indent: usize, key: Option<&str>, into: &mut String)
        requires
            self@.fault(indent as nat) is None,
        ensures
            utf8(final(into)@) == utf8(old(into)@) + self@.encoded(indent as nat, key_text(key)),
        decreases self,
    {
        proof {
            self.lemma_model();
        }
        match self {
            Value::Text(text) => text.emit(indent, key, into),
            Value::List(list) => list.emit(indent, key, into),
            Value::Dict(dict) => dict.emit(indent, key, into),
        }
    }

    /// Writes the value at `indent` under `key`, at the end of `into`, or
    /// writes nothing and tells which ceiling of the encoding stands against
    /// it.
    pub fn build(&self, indent: usize, key: Option<&str>, into: &mut String) -> (r: Result<
        (),
        CommentErr,
    >)
        ensures
            match r {
                Ok(()) => self@.fault(indent as nat) is None && utf8(final(into)@) == utf8(
                    old(into)@,
                ) + self@.encoded(indent as nat, key_text(key)),
                Err(e) => self@.fault(indent as nat) == Some(e) && final(into)@ == old(into)@,
            },
    {
        match self.check(indent) {
            Err(e) => Err(e),
            Ok(()) => {
                self.emit(indent, key, into);
                Ok(())
            },
        }
    }
}

impl<'a> File<'a> {
    /// Tells whether a ceiling of the encoding stands against writing the
    /// document, and which: the first in the order of writing.
    pub fn check(&self) -> (r: Result<(), CommentErr>)
        ensures
            match r {
                Ok(()) => self@.fault() is None,
                Err(e) => self@.fault() == Some(e),
            },
    {
        match check_comment(&self.hashbang, 0) {
            Err(e) => Err(e),
            Ok(()) => match check_comment(&self.prolog, 0) {
                Err(e) => Err(e),
                Ok(()) => check_entries(&self.vec, 0),
            },
        }
    }

    /// Writes the document into `into`, in place of what `into` held: the
    /// `#!` line, the introduction, then the entries without indentation.
    /// Where a ceiling of the encoding stands against it, `into` is left as
    /// it was.
    pub fn build(&self, into: &mut String) -> (r: Result<(), CommentErr>)
        ensures
            match r {
                Ok(()) => self@.fault() is None && utf8(final(into)@) == self@.encoded(),
                Err(e) => self@.fault() == Some(e) && final(into)@ == old(into)@,
            },
    {
        match self.check() {
            Err(e) => Err(e),
            Ok(()) => {
                proof {
                    reveal_strlit("#!");
                    reveal_strlit("#");
                    lemma_literal("#!", hash_bang());
                    lemma_literal("#", hash());
                }
                *into = String::new();
                assert(utf8(into@) =~= Seq::<u8>::empty());
                emit_comment(&self.hashbang, 0, "#!", into);
                emit_comment(&self.prolog, 0, "#", into);
                emit_entries(&self.vec, 0, into);
                proof {
                    assert(utf8(into@) =~= self@.encoded());
                }
                Ok(())
            },
        }
    }
}

} // verus!
