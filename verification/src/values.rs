//! The value tree: text, lists and dictionaries, with the comments that hang
//! on them.
//!
//! Every value borrows its text from the caller's buffer. The containers own
//! their structure, not the bytes. A dictionary keeps its entries in the
//! order in which they were inserted and finds a key by walking them:
//! dictionaries in documents are small, and the order is part of the
//! document.

use crate::comments::{span_of, Comment};
use crate::decimal::{decimal, push_decimal};
use crate::encoded::{texts, Encoded};
use crate::lines::{first_newline, lemma_first_newline_is, NEWLINE};
use crate::span::{adopted, is_extent, parsed};
use crate::strings::{same_text, utf8};
use crate::tree::{
    inserted, key_ok, lemma_inserted, lemma_position_of_is, position_of, unique_keys, Document,
    Entry, Node,
};
use vstd::prelude::*;
use vstd::std_specs::convert::FromSpecImpl;
use vstd::string::StringExecFns;
use vstd::string::StringSliceAdditionalSpecFns;

verus! {

/// A key was refused because it holds a line terminator.
#[derive(Clone, Copy, Debug, PartialEq, Eq, Structural)]
pub struct KeyErr {
    /// Offset in bytes of the first line terminator in the key.
    pub at: usize,
}

impl KeyErr {
    /// The text of the diagnostic.
    pub open spec fn message(self) -> Seq<char> {
        "Key holds a line terminator at byte "@ + decimal(self.at as nat) + "."@
    }

    /// Renders the diagnostic.
    pub fn to_string(&self) -> (r: String)
        ensures
            r@ == self.message(),
    {
        let mut out = String::new();
        out.append("Key holds a line terminator at byte ");
        push_decimal(&mut out, self.at);
        out.append(".");
        assert(out@ =~= self.message());
        out
    }
}

/// A key of a dictionary or of a document: text without a line terminator.
#[derive(Clone, Copy, Debug)]
pub struct Key<'a> {
    name: &'a str,
}

impl<'a> View for Key<'a> {
    type V = Seq<char>;

    closed spec fn view(&self) -> Seq<char> {
        self.name@
    }
}

impl<'a> Key<'a> {
    #[verifier::type_invariant]
    closed spec fn inv(self) -> bool {
        key_ok(self.name@)
    }

    /// Makes a key of `name`, or refuses it where it holds a line
    /// terminator.
    pub fn new(name: &'a str) -> (r: Result<Self, KeyErr>)
        ensures
            match r {
                Ok(key) => key_ok(name@) && key@ == name@,
                Err(e) => !key_ok(name@) && e.at == first_newline(name.spec_bytes()),
            },
    {
        let bytes = name.as_bytes();
        let mut i: usize = 0;
        while i < bytes.len()
            invariant
                bytes@ == name.spec_bytes(),
                i <= bytes@.len(),
                forall|j: int| 0 <= j < i ==> bytes@[j] != NEWLINE,
            decreases bytes@.len() - i,
        {
            if bytes[i] == NEWLINE {
                proof {
                    lemma_first_newline_is(bytes@, i as int);
                }
                return Err(KeyErr { at: i });
            }
            i += 1;
        }
        Ok(Key { name })
    }

    /// The text of the key.
    pub fn as_str(&self) -> (r: &'a str)
        ensures
            r@ == self@,
            key_ok(self@),
    {
        proof {
            use_type_invariant(self);
        }
        self.name
    }
}

/// Text, with the comment after it.
#[derive(Debug)]
pub struct Text<'a> {
    /// The text, as it stands in the document.
    pub content: Encoded<'a>,
    /// The comment after the text.
    pub epilog: Option<Comment<'a>>,
}

/// Values in order, with the comments at the start and after.
#[derive(Debug)]
pub struct List<'a> {
    /// The items of the list.
    pub vec: Vec<Value<'a>>,
    /// The comment at the start of the list.
    pub prolog: Option<Comment<'a>>,
    /// The comment after the list.
    pub epilog: Option<Comment<'a>>,
}

/// One association of a dictionary or of a document.
#[derive(Debug)]
pub struct Keyed<'a> {
    /// The key.
    pub key: Key<'a>,
    /// Whether a blank line stands in front of the entry and its comment.
    pub gap: bool,
    /// The comment in front of the entry, behind its blank line.
    pub before: Option<Comment<'a>>,
    /// The value under the key.
    pub value: Value<'a>,
}

/// Keyed entries in the order of their insertion, with the comments at the
/// start and after.
#[derive(Debug)]
pub struct Dict<'a> {
    /// The entries of the dictionary.
    pub vec: Vec<Keyed<'a>>,
    /// The comment at the start of the dictionary.
    pub prolog: Option<Comment<'a>>,
    /// The comment after the dictionary.
    pub epilog: Option<Comment<'a>>,
}

/// The three kinds of value.
#[derive(Debug)]
pub enum Value<'a> {
    /// Text.
    Text(Text<'a>),
    /// A list of values.
    List(List<'a>),
    /// A dictionary of keyed values.
    Dict(Dict<'a>),
}

/// A whole document: the entries of its top level, and the two comments that
/// only a document has.
#[derive(Debug)]
pub struct File<'a> {
    /// The entries of the top level.
    pub vec: Vec<Keyed<'a>>,
    /// The first line of the document, where it starts with `#!`.
    pub hashbang: Option<Comment<'a>>,
    /// The comment that introduces the document.
    pub prolog: Option<Comment<'a>>,
}

/// The models of a sequence of values.
pub open spec fn models(values: Seq<Value>) -> Seq<Node> {
    Seq::new(values.len(), |i: int| values[i].model())
}

/// The models of a sequence of entries.
pub open spec fn entries_of(entries: Seq<Keyed>) -> Seq<Entry> {
    Seq::new(entries.len(), |i: int| entries[i]@)
}

/// The text of a key that may be missing.
pub open spec fn key_text(key: Option<&str>) -> Option<Seq<char>> {
    match key {
        Some(k) => Some(k@),
        None => None,
    }
}

impl<'a> Value<'a> {
    /// What the value is, apart from where its bytes live.
    pub open spec fn model(self) -> Node
        decreases self,
    {
        match self {
            Value::Text(text) => Node::Text {
                content: text.content@,
                epilog: span_of(text.epilog),
            },
            Value::List(list) => Node::List {
                items: Seq::new(
                    list.vec@.len(),
                    |i: int|
                        if 0 <= i < list.vec@.len() {
                            list.vec@[i].model()
                        } else {
                            arbitrary()
                        },
                ),
                prolog: span_of(list.prolog),
                epilog: span_of(list.epilog),
            },
            Value::Dict(dict) => Node::Dict {
                entries: Seq::new(
                    dict.vec@.len(),
                    |i: int|
                        if 0 <= i < dict.vec@.len() {
                            Entry {
                                key: dict.vec@[i].key@,
                                gap: dict.vec@[i].gap,
                                before: span_of(dict.vec@[i].before),
                                value: dict.vec@[i].value.model(),
                            }
                        } else {
                            arbitrary()
                        },
                ),
                prolog: span_of(dict.prolog),
                epilog: span_of(dict.epilog),
            },
        }
    }

    /// The model of a value is the view of what it holds.
    pub proof fn lemma_model(self)
        ensures
            match self {
                Value::Text(text) => self@ == text@,
                Value::List(list) => self@ == list@,
                Value::Dict(dict) => self@ == dict@,
            },
    {
        match self {
            Value::Text(text) => {},
            Value::List(list) => {
                assert(self.model()->List_items =~= models(list.vec@));
            },
            Value::Dict(dict) => {
                assert(self.model()->Dict_entries =~= entries_of(dict.vec@));
            },
        }
    }

    /// A text value with `text` as its content and no comment.
    pub fn text(text: &'a str) -> (r: Self)
        ensures
            r@ == (Node::Text { content: adopted(text.spec_bytes()), epilog: None }),
            r@.wf(),
    {
        Value::Text(Text::from(text))
    }

    /// An empty list without comments.
    pub fn list() -> (r: Self)
        ensures
            r@ == (Node::List { items: Seq::empty(), prolog: None, epilog: None }),
            r@.wf(),
    {
        let r = Value::List(List::from(Vec::new()));
        proof {
            r.lemma_model();
            assert(models(Seq::<Value>::empty()) =~= Seq::<Node>::empty());
        }
        r
    }

    /// An empty dictionary without comments.
    pub fn dict() -> (r: Self)
        ensures
            r@ == (Node::Dict { entries: Seq::empty(), prolog: None, epilog: None }),
            r@.wf(),
    {
        let r = Value::Dict(Dict::from(Vec::new()));
        proof {
            r.lemma_model();
            assert(entries_of(Seq::<Keyed>::empty()) =~= Seq::<Entry>::empty());
        }
        r
    }
}

impl<'a> View for Value<'a> {
    type V = Node;

    open spec fn view(&self) -> Node {
        self.model()
    }
}

/// A copy of `comment`, which borrows the same bytes.
fn copy_comment<'a>(comment: &Option<Comment<'a>>) -> (r: Option<Comment<'a>>)
    ensures
        r == *comment,
{
    match comment {
        Some(c) => Some(*c),
        None => None,
    }
}

/// Copies of the values of `vec`, in order.
fn copy_values<'a>(vec: &Vec<Value<'a>>) -> (r: Vec<Value<'a>>)
    ensures
        models(r@) == models(vec@),
    decreases vec,
{
    let mut out: Vec<Value<'a>> = Vec::new();
    let mut k: usize = 0;
    while k < vec.len()
        invariant
            k <= vec@.len(),
            out@.len() == k,
            forall|i: int| 0 <= i < k ==> (#[trigger] out@[i])@ == vec@[i]@,
        decreases vec@.len() - k,
    {
        out.push(vec[k].duplicate());
        k += 1;
    }
    assert(models(out@) =~= models(vec@));
    out
}

/// Copies of the entries of `vec`, in order.
fn copy_entries<'a>(vec: &Vec<Keyed<'a>>) -> (r: Vec<Keyed<'a>>)
    ensures
        entries_of(r@) == entries_of(vec@),
    decreases vec,
{
    let mut out: Vec<Keyed<'a>> = Vec::new();
    let mut k: usize = 0;
    while k < vec.len()
        invariant
            k <= vec@.len(),
            out@.len() == k,
            forall|i: int| 0 <= i < k ==> (#[trigger] out@[i])@ == vec@[i]@,
        decreases vec@.len() - k,
    {
        let keyed = &vec[k];
        out.push(
            Keyed {
                key: keyed.key,
                gap: keyed.gap,
                before: copy_comment(&keyed.before),
                value: keyed.value.duplicate(),
            },
        );
        k += 1;
    }
    assert(entries_of(out@) =~= entries_of(vec@));
    out
}

impl<'a> Value<'a> {
    /// A copy of the value and of all that it holds. The copy borrows the
    /// same bytes.
    pub fn duplicate(&self) -> (r: Self)
        ensures
            r@ == self@,
        decreases self,
    {
        let r = match self {
            Value::Text(text) => Value::Text(
                Text { content: text.content, epilog: copy_comment(&text.epilog) },
            ),
            Value::List(list) => Value::List(
                List {
                    vec: copy_values(&list.vec),
                    prolog: copy_comment(&list.prolog),
                    epilog: copy_comment(&list.epilog),
                },
            ),
            Value::Dict(dict) => Value::Dict(
                Dict {
                    vec: copy_entries(&dict.vec),
                    prolog: copy_comment(&dict.prolog),
                    epilog: copy_comment(&dict.epilog),
                },
            ),
        };
        proof {
            self.lemma_model();
            r.lemma_model();
        }
        r
    }
}

impl<'a> Clone for Value<'a> {
    fn clone(&self) -> (r: Self)
        ensures
            r@ == self@,
    {
        self.duplicate()
    }
}

impl<'a> Clone for Text<'a> {
    fn clone(&self) -> (r: Self)
        ensures
            r@ == self@,
    {
        Text { content: self.content, epilog: copy_comment(&self.epilog) }
    }
}

impl<'a> Clone for List<'a> {
    fn clone(&self) -> (r: Self)
        ensures
            r@ == self@,
    {
        List {
            vec: copy_values(&self.vec),
            prolog: copy_comment(&self.prolog),
            epilog: copy_comment(&self.epilog),
        }
    }
}

impl<'a> Clone for Keyed<'a> {
    fn clone(&self) -> (r: Self)
        ensures
            r@ == self@,
    {
        Keyed {
            key: self.key,
            gap: self.gap,
            before: copy_comment(&self.before),
            value: self.value.duplicate(),
        }
    }
}

impl<'a> Clone for Dict<'a> {
    fn clone(&self) -> (r: Self)
        ensures
            r@ == self@,
    {
        Dict {
            vec: copy_entries(&self.vec),
            prolog: copy_comment(&self.prolog),
            epilog: copy_comment(&self.epilog),
        }
    }
}

impl<'a> Clone for File<'a> {
    fn clone(&self) -> (r: Self)
        ensures
            r@ == self@,
    {
        File {
            vec: copy_entries(&self.vec),
            hashbang: copy_comment(&self.hashbang),
            prolog: copy_comment(&self.prolog),
        }
    }
}

impl<'a> View for Text<'a> {
    type V = Node;

    open spec fn view(&self) -> Node {
        Node::Text { content: self.content@, epilog: span_of(self.epilog) }
    }
}

impl<'a> View for List<'a> {
    type V = Node;

    open spec fn view(&self) -> Node {
        Node::List {
            items: models(self.vec@),
            prolog: span_of(self.prolog),
            epilog: span_of(self.epilog),
        }
    }
}

impl<'a> View for Keyed<'a> {
    type V = Entry;

    open spec fn view(&self) -> Entry {
        Entry {
            key: self.key@,
            gap: self.gap,
            before: span_of(self.before),
            value: self.value.model(),
        }
    }
}

impl<'a> View for Dict<'a> {
    type V = Node;

    open spec fn view(&self) -> Node {
        Node::Dict {
            entries: entries_of(self.vec@),
            prolog: span_of(self.prolog),
            epilog: span_of(self.epilog),
        }
    }
}

impl<'a> View for File<'a> {
    type V = Document;

    open spec fn view(&self) -> Document {
        Document {
            entries: entries_of(self.vec@),
            hashbang: span_of(self.hashbang),
            prolog: span_of(self.prolog),
        }
    }
}

impl<'a> From<&'a str> for Text<'a> {
    /// A text with `utf8` as its content and no comment.
    fn from(utf8: &'a str) -> (r: Self)
        ensures
            r@ == (Node::Text { content: adopted(utf8.spec_bytes()), epilog: None }),
            r@.wf(),
    {
        Text { content: Encoded::adopt(utf8), epilog: None }
    }
}

impl<'a> FromSpecImpl<&'a str> for Text<'a> {
    open spec fn obeys_from_spec() -> bool {
        true
    }

    open spec fn from_spec(utf8: &'a str) -> Self {
        Text { content: Encoded::adoption(utf8), epilog: None }
    }
}

impl<'a> From<Vec<Value<'a>>> for List<'a> {
    /// A list of `list` without comments.
    fn from(list: Vec<Value<'a>>) -> (r: Self)
        ensures
            r@ == (Node::List { items: models(list@), prolog: None, epilog: None }),
            r.vec == list,
    {
        List { vec: list, prolog: None, epilog: None }
    }
}

impl<'a> FromSpecImpl<Vec<Value<'a>>> for List<'a> {
    open spec fn obeys_from_spec() -> bool {
        true
    }

    open spec fn from_spec(list: Vec<Value<'a>>) -> Self {
        List { vec: list, prolog: None, epilog: None }
    }
}

impl<'a> From<Vec<Keyed<'a>>> for Dict<'a> {
    /// A dictionary of `entries` without comments.
    fn from(entries: Vec<Keyed<'a>>) -> (r: Self)
        ensures
            r@ == (Node::Dict { entries: entries_of(entries@), prolog: None, epilog: None }),
            r.vec == entries,
    {
        Dict { vec: entries, prolog: None, epilog: None }
    }
}

impl<'a> FromSpecImpl<Vec<Keyed<'a>>> for Dict<'a> {
    open spec fn obeys_from_spec() -> bool {
        true
    }

    open spec fn from_spec(entries: Vec<Keyed<'a>>) -> Self {
        Dict { vec: entries, prolog: None, epilog: None }
    }
}

impl<'a> Text<'a> {
    /// Parses the text at the front of `source`, which starts right behind
    /// the line that opens the value, at indentation `indent`.
    pub fn parse(source: &'a str, indent: usize) -> (r: Self)
        ensures
            r@ == (Node::Text { content: parsed(source.spec_bytes(), indent as nat), epilog: None }),
            r@.wf(),
            is_extent(
                source.spec_bytes(),
                indent as nat + 1,
                parsed(source.spec_bytes(), indent as nat).verbatim.len() as int,
            ),
    {
        Text { content: Encoded::parse(source, indent), epilog: None }
    }

    /// The same text with `epilog` as the comment after it.
    pub fn with_epilog(self, epilog: &'a str) -> (r: Self)
        ensures
            r@ == (Node::Text {
                content: self@->Text_content,
                epilog: Some(adopted(epilog.spec_bytes())),
            }),
    {
        let mut text = self;
        text.epilog = Comment::some(epilog);
        text
    }

    /// The logical lines of the text.
    pub fn lines(&self) -> (r: Vec<&'a str>)
        ensures
            texts(r@) == self@->Text_content.lines(),
    {
        self.content.lines()
    }

    /// The logical content of the text in a string of its own.
    pub fn to_string(&self) -> (r: String)
        ensures
            utf8(r@) == self@->Text_content.content(),
    {
        self.content.to_string()
    }
}

impl<'a> List<'a> {
    /// The same list with `prolog` as the comment at its start.
    pub fn with_prolog(self, prolog: &'a str) -> (r: Self)
        ensures
            r@ == (Node::List {
                items: self@->List_items,
                prolog: Some(adopted(prolog.spec_bytes())),
                epilog: self@->List_epilog,
            }),
            r.vec == self.vec,
    {
        let mut list = self;
        list.prolog = Comment::some(prolog);
        list
    }

    /// The same list with `epilog` as the comment after it.
    pub fn with_epilog(self, epilog: &'a str) -> (r: Self)
        ensures
            r@ == (Node::List {
                items: self@->List_items,
                prolog: self@->List_prolog,
                epilog: Some(adopted(epilog.spec_bytes())),
            }),
            r.vec == self.vec,
    {
        let mut list = self;
        list.epilog = Comment::some(epilog);
        list
    }
}

impl<'a> Keyed<'a> {
    /// An entry of `value` under `key`, with no blank line and no comment in
    /// front of it. A key that holds a line terminator is refused.
    pub fn from(key: &'a str, value: Value<'a>) -> (r: Result<Self, KeyErr>)
        ensures
            match r {
                Ok(keyed) => key_ok(key@) && keyed@ == (Entry {
                    key: key@,
                    gap: false,
                    before: None,
                    value: value@,
                }) && keyed.value == value,
                Err(e) => !key_ok(key@) && e.at == first_newline(key.spec_bytes()),
            },
    {
        match Key::new(key) {
            Ok(key) => Ok(Keyed { key, gap: false, before: None, value }),
            Err(e) => Err(e),
        }
    }
}

/// The index of the first entry of `vec` under `key`.
pub fn position_in<'a>(vec: &Vec<Keyed<'a>>, key: &str) -> (r: Option<usize>)
    ensures
        match r {
            Some(at) => at < vec@.len() && at == position_of(entries_of(vec@), key@),
            None => position_of(entries_of(vec@), key@) == vec@.len(),
        },
{
    let mut i: usize = 0;
    while i < vec.len()
        invariant
            i <= vec@.len(),
            forall|j: int| 0 <= j < i ==> (#[trigger] entries_of(vec@)[j]).key != key@,
        decreases vec@.len() - i,
    {
        if same_text(vec[i].key.as_str(), key) {
            proof {
                lemma_position_of_is(entries_of(vec@), key@, i as int);
            }
            return Some(i);
        }
        i += 1;
    }
    proof {
        lemma_position_of_is(entries_of(vec@), key@, i as int);
    }
    None
}

/// Puts `keyed` into `vec`: in the place of the first entry under its key,
/// or at the end where there is none.
pub fn insert_in<'a>(vec: &mut Vec<Keyed<'a>>, keyed: Keyed<'a>)
    ensures
        entries_of(final(vec)@) == inserted(entries_of(old(vec)@), keyed@),
        position_of(entries_of(old(vec)@), keyed@.key) < old(vec)@.len() ==> final(vec)@ == old(
            vec,
        )@.update(position_of(entries_of(old(vec)@), keyed@.key), keyed),
        position_of(entries_of(old(vec)@), keyed@.key) == old(vec)@.len() ==> final(vec)@ == old(
            vec,
        )@.push(keyed),
        unique_keys(entries_of(old(vec)@)) ==> unique_keys(entries_of(final(vec)@)),
{
    proof {
        lemma_inserted(entries_of(vec@), keyed@);
    }
    let found = position_in(vec, keyed.key.as_str());
    match found {
        Some(at) => {
            vec[at] = keyed;
            assert(entries_of(vec@) =~= inserted(entries_of(old(vec)@), keyed@));
        },
        None => {
            vec.push(keyed);
            assert(entries_of(vec@) =~= inserted(entries_of(old(vec)@), keyed@));
        },
    }
}

impl<'a> Dict<'a> {
    /// The entries of the dictionary.
    pub open spec fn entries(self) -> Seq<Entry> {
        entries_of(self.vec@)
    }

    /// Number of entries.
    pub fn len(&self) -> (n: usize)
        ensures
            n == self.entries().len(),
    {
        self.vec.len()
    }

    /// The index of the entry under `key`.
    pub fn position(&self, key: &str) -> (r: Option<usize>)
        ensures
            match r {
                Some(at) => at < self.entries().len() && at == position_of(self.entries(), key@),
                None => position_of(self.entries(), key@) == self.entries().len(),
            },
    {
        position_in(&self.vec, key)
    }

    /// The entry under `key`.
    pub fn find(&self, key: &str) -> (r: Option<&Keyed<'a>>)
        ensures
            match r {
                Some(keyed) => position_of(self.entries(), key@) < self.vec@.len() && *keyed
                    == self.vec@[position_of(self.entries(), key@)],
                None => position_of(self.entries(), key@) == self.entries().len(),
            },
    {
        match position_in(&self.vec, key) {
            Some(at) => Some(&self.vec[at]),
            None => None,
        }
    }

    /// The entry under `key`, to change it in place.
    pub fn find_mut(&mut self, key: &str) -> (r: Option<&mut Keyed<'a>>)
        ensures
            final(self).prolog == old(self).prolog,
            final(self).epilog == old(self).epilog,
            match r {
                Some(keyed) => {
                    let at = position_of(old(self).entries(), key@);
                    &&& at < old(self).vec@.len()
                    &&& *keyed == old(self).vec@[at]
                    &&& final(self).vec@ == old(self).vec@.update(at, *final(keyed))
                },
                None => position_of(old(self).entries(), key@) == old(self).entries().len()
                    && final(self).vec@ == old(self).vec@,
            },
    {
        match position_in(&self.vec, key) {
            Some(at) => Some(&mut self.vec[at]),
            None => None,
        }
    }

    /// Puts `keyed` at the end of the entries, whether or not an entry is
    /// under its key already. Lookup finds the first entry under a key; to
    /// keep every key once, use [`Dict::insert`].
    pub fn push(&mut self, keyed: Keyed<'a>)
        ensures
            final(self).vec@ == old(self).vec@.push(keyed),
            final(self).entries() == old(self).entries().push(keyed@),
            final(self).prolog == old(self).prolog,
            final(self).epilog == old(self).epilog,
    {
        self.vec.push(keyed);
        assert(self.entries() =~= old(self).entries().push(keyed@));
    }

    /// Puts `keyed` under its key: in the place of the entry that is under
    /// the key already, or at the end where there is none. The other entries
    /// stay where they are.
    pub fn insert(&mut self, keyed: Keyed<'a>)
        ensures
            final(self).entries() == inserted(old(self).entries(), keyed@),
            unique_keys(old(self).entries()) ==> unique_keys(final(self).entries()),
            final(self).prolog == old(self).prolog,
            final(self).epilog == old(self).epilog,
    {
        insert_in(&mut self.vec, keyed);
    }

    /// The same dictionary with `prolog` as the comment at its start.
    pub fn with_prolog(self, prolog: &'a str) -> (r: Self)
        ensures
            r@ == (Node::Dict {
                entries: self@->Dict_entries,
                prolog: Some(adopted(prolog.spec_bytes())),
                epilog: self@->Dict_epilog,
            }),
            r.vec == self.vec,
    {
        let mut dict = self;
        dict.prolog = Comment::some(prolog);
        dict
    }

    /// The same dictionary with `epilog` as the comment after it.
    pub fn with_epilog(self, epilog: &'a str) -> (r: Self)
        ensures
            r@ == (Node::Dict {
                entries: self@->Dict_entries,
                prolog: self@->Dict_prolog,
                epilog: Some(adopted(epilog.spec_bytes())),
            }),
            r.vec == self.vec,
    {
        let mut dict = self;
        dict.epilog = Comment::some(epilog);
        dict
    }
}

impl<'a> File<'a> {
    /// An empty document.
    pub fn new() -> (r: Self)
        ensures
            r@ == (Document { entries: Seq::empty(), hashbang: None, prolog: None }),
    {
        let r = File { vec: Vec::new(), hashbang: None, prolog: None };
        assert(r@.entries =~= Seq::<Entry>::empty());
        r
    }

    /// The entries of the document.
    pub open spec fn entries(self) -> Seq<Entry> {
        entries_of(self.vec@)
    }

    /// Number of entries.
    pub fn len(&self) -> (n: usize)
        ensures
            n == self.entries().len(),
    {
        self.vec.len()
    }

    /// The index of the entry under `key`.
    pub fn position(&self, key: &str) -> (r: Option<usize>)
        ensures
            match r {
                Some(at) => at < self.entries().len() && at == position_of(self.entries(), key@),
                None => position_of(self.entries(), key@) == self.entries().len(),
            },
    {
        position_in(&self.vec, key)
    }

    /// The entry under `key`.
    pub fn find(&self, key: &str) -> (r: Option<&Keyed<'a>>)
        ensures
            match r {
                Some(keyed) => position_of(self.entries(), key@) < self.vec@.len() && *keyed
                    == self.vec@[position_of(self.entries(), key@)],
                None => position_of(self.entries(), key@) == self.entries().len(),
            },
    {
        match position_in(&self.vec, key) {
            Some(at) => Some(&self.vec[at]),
            None => None,
        }
    }

    /// The entry under `key`, to change it in place.
    pub fn find_mut(&mut self, key: &str) -> (r: Option<&mut Keyed<'a>>)
        ensures
            final(self).hashbang == old(self).hashbang,
            final(self).prolog == old(self).prolog,
            match r {
                Some(keyed) => {
                    let at = position_of(old(self).entries(), key@);
                    &&& at < old(self).vec@.len()
                    &&& *keyed == old(self).vec@[at]
                    &&& final(self).vec@ == old(self).vec@.update(at, *final(keyed))
                },
                None => position_of(old(self).entries(), key@) == old(self).entries().len()
                    && final(self).vec@ == old(self).vec@,
            },
    {
        match position_in(&self.vec, key) {
            Some(at) => Some(&mut self.vec[at]),
            None => None,
        }
    }

    /// Puts `keyed` at the end of the entries, whether or not an entry is
    /// under its key already. Lookup finds the first entry under a key; to
    /// keep every key once, use [`File::insert`].
    pub fn push(&mut self, keyed: Keyed<'a>)
        ensures
            final(self).vec@ == old(self).vec@.push(keyed),
            final(self).entries() == old(self).entries().push(keyed@),
            final(self).hashbang == old(self).hashbang,
            final(self).prolog == old(self).prolog,
    {
        self.vec.push(keyed);
        assert(self.entries() =~= old(self).entries().push(keyed@));
    }

    /// Puts `keyed` under its key: in the place of the entry that is under
    /// the key already, or at the end where there is none. The other entries
    /// stay where they are.
    pub fn insert(&mut self, keyed: Keyed<'a>)
        ensures
            final(self).entries() == inserted(old(self).entries(), keyed@),
            unique_keys(old(self).entries()) ==> unique_keys(final(self).entries()),
            final(self).hashbang == old(self).hashbang,
            final(self).prolog == old(self).prolog,
    {
        insert_in(&mut self.vec, keyed);
    }
}

} // verus!
