//! Comments: free text that hangs on a value or on a document.
//!
//! The text of a comment is not interpreted. It is kept in its encoded form,
//! so that a program that ignores the comments does not pay for decoding
//! them. A comment is held by the value that it describes; there is no way
//! from a comment to that value.

use crate::encoded::{texts, Encoded};
use crate::limits::CommentErr;
use crate::lines::{
    lemma_leading_tabs, lemma_leading_tabs_is, leading_tabs, starts_with, NEWLINE, TAB,
};
use crate::span::{adopted, extent, is_extent, lemma_extent, lemma_round_trip, parsed, Span};
use crate::strings::{lemma_boundary_after_ascii, lemma_utf8_ascii_text, slice, utf8};
use crate::tree::{hash, hash_bang, slashes};
use vstd::prelude::*;
use vstd::std_specs::convert::FromSpecImpl;
use vstd::string::StringSliceAdditionalSpecFns;
use vstd::utf8::{encode_utf8_valid_utf8, is_char_boundary_start_end_of_seq};

verus! {

/// Free text about a value or a document.
#[derive(Clone, Copy, Debug)]
pub struct Comment<'a> {
    /// The text, as it stands in the document. By convention it is
    /// GitHub-flavoured Markdown; nothing here depends on that.
    pub gfm: Encoded<'a>,
}

impl<'a> View for Comment<'a> {
    type V = Span;

    open spec fn view(&self) -> Span {
        self.gfm@
    }
}

/// The span of a comment that may be missing.
pub open spec fn span_of(c: Option<Comment>) -> Option<Span> {
    match c {
        Some(comment) => Some(comment@),
        None => None,
    }
}

/// The marker that a comment of a value or of a document is written behind.
pub open spec fn comment_marker(hashbang: bool) -> Seq<u8> {
    if hashbang {
        hash_bang()
    } else {
        hash()
    }
}

/// The comment that stands at the front of `src` behind its leading tabs and
/// `marker`, if `marker` stands there.
pub open spec fn marked(src: Seq<u8>, marker: Seq<u8>) -> Option<Span> {
    let indent = leading_tabs(src);
    if starts_with(src.skip(indent), marker) {
        Some(parsed(src.skip(indent + marker.len()), indent as nat))
    } else {
        None
    }
}

/// Round trip of a comment. Where a comment stands at the front of `src`,
/// writing it again at the depth of its marker gives the bytes of `src` up to
/// the end of the comment, and one line terminator.
pub proof fn lemma_marked_round_trip(src: Seq<u8>, marker: Seq<u8>)
    requires
        marked(src, marker) is Some,
    ensures
        ({
            let indent = leading_tabs(src);
            let start = indent + marker.len();
            let end = start + extent(src.skip(start), indent as nat + 1);
            &&& 0 <= indent
            &&& start <= end <= src.len()
            &&& marked(src, marker)->0.built(indent as nat, marker) == src.take(end) + seq![
                NEWLINE,
            ]
        }),
{
    let indent = leading_tabs(src);
    lemma_leading_tabs(src);
    let start = indent + marker.len();
    let rest = src.skip(start);
    let e = extent(rest, indent as nat + 1);
    lemma_extent(rest, indent as nat + 1);
    lemma_round_trip(rest, indent as nat, marker);
    assert(src.skip(indent).take(marker.len() as int) == marker);
    assert(src.take(start + e) =~= src.take(indent) + src.skip(indent).take(marker.len() as int)
        + rest.take(e));
}

/// Counts the tabs at the front of `bytes`.
fn count_leading_tabs(bytes: &[u8]) -> (n: usize)
    ensures
        n == leading_tabs(bytes@),
        n <= bytes@.len(),
        n < bytes@.len() ==> bytes@[n as int] != TAB,
{
    let mut n: usize = 0;
    while n < bytes.len() && bytes[n] == TAB
        invariant
            n <= bytes@.len(),
            forall|j: int| 0 <= j < n ==> bytes@[j] == TAB,
        decreases bytes@.len() - n,
    {
        n += 1;
    }
    proof {
        lemma_leading_tabs_is(bytes@, n as int);
    }
    n
}

impl<'a> From<&'a str> for Comment<'a> {
    /// A comment with `utf8` as its text.
    fn from(utf8: &'a str) -> (r: Self)
        ensures
            r@ == adopted(utf8.spec_bytes()),
            r@.wf(),
            r@.content() == utf8.spec_bytes(),
    {
        Comment { gfm: Encoded::adopt(utf8) }
    }
}

impl<'a> FromSpecImpl<&'a str> for Comment<'a> {
    open spec fn obeys_from_spec() -> bool {
        true
    }

    open spec fn from_spec(utf8: &'a str) -> Self {
        Comment { gfm: Encoded::adoption(utf8) }
    }
}

impl<'a> Comment<'a> {
    /// A comment with `utf8` as its text, ready for a slot that may be
    /// empty.
    pub fn some(utf8: &'a str) -> (r: Option<Self>)
        ensures
            span_of(r) == Some(adopted(utf8.spec_bytes())),
            adopted(utf8.spec_bytes()).wf(),
    {
        Some(Comment::from(utf8))
    }

    /// Parses the comment at the front of `stream`, which starts right
    /// behind a marker that stands at indentation `indent`.
    pub fn parse(stream: &'a str, indent: usize) -> (r: Self)
        ensures
            r@ == parsed(stream.spec_bytes(), indent as nat),
            r@.wf(),
            is_extent(stream.spec_bytes(), indent as nat + 1, r@.verbatim.len() as int),
    {
        Comment { gfm: Encoded::parse(stream, indent) }
    }

    /// Parses a `#` comment: `source` starts with any number of tabs and a
    /// `#`, or there is no comment.
    pub fn octothorpe(source: &'a str) -> (r: Option<Self>)
        ensures
            span_of(r) == marked(source.spec_bytes(), hash()),
            r is Some ==> r->0@.wf(),
    {
        let bytes = source.as_bytes();
        let indent = count_leading_tabs(bytes);
        let ghost src = source.spec_bytes();
        if indent >= bytes.len() || bytes[indent] != 0x23u8 {
            proof {
                if starts_with(src.skip(indent as int), hash()) {
                    assert(src.skip(indent as int).take(1)[0] == 0x23u8);
                }
            }
            None
        } else {
            proof {
                encode_utf8_valid_utf8(source@);
                lemma_boundary_after_ascii(src, indent as int);
                is_char_boundary_start_end_of_seq(src);
                assert(src.skip(indent as int).take(1) =~= hash());
            }
            let rest = slice(source, indent + 1, bytes.len());
            assert(rest.spec_bytes() =~= src.skip(indent + 1));
            Some(Comment::parse(rest, indent))
        }
    }

    /// Parses a `//` comment: `source` starts with any number of tabs and two
    /// `/`, or there is no comment.
    pub fn slash_slash(source: &'a str) -> (r: Option<Self>)
        ensures
            span_of(r) == marked(source.spec_bytes(), slashes()),
            r is Some ==> r->0@.wf(),
    {
        let bytes = source.as_bytes();
        let indent = count_leading_tabs(bytes);
        let ghost src = source.spec_bytes();
        if bytes.len() - indent < 2 || bytes[indent] != 0x2Fu8 || bytes[indent + 1] != 0x2Fu8 {
            proof {
                if starts_with(src.skip(indent as int), slashes()) {
                    assert(src.skip(indent as int).take(2)[0] == 0x2Fu8);
                    assert(src.skip(indent as int).take(2)[1] == 0x2Fu8);
                }
            }
            None
        } else {
            proof {
                encode_utf8_valid_utf8(source@);
                lemma_boundary_after_ascii(src, indent + 1);
                is_char_boundary_start_end_of_seq(src);
                assert(src.skip(indent as int).take(2) =~= slashes());
            }
            let rest = slice(source, indent + 2, bytes.len());
            assert(rest.spec_bytes() =~= src.skip(indent + 2));
            Some(Comment::parse(rest, indent))
        }
    }

    /// Number of bytes of the comment as it stands in the document.
    pub fn len(&self) -> (n: usize)
        ensures
            n == self@.verbatim.len(),
    {
        self.gfm.len()
    }

    /// The logical lines of the comment.
    pub fn lines(&self) -> (r: Vec<&'a str>)
        ensures
            texts(r@) == self@.lines(),
    {
        self.gfm.lines()
    }

    /// The logical content of the comment in a string of its own.
    pub fn to_string(&self) -> (r: String)
        ensures
            utf8(r@) == self@.content(),
    {
        self.gfm.to_string()
    }

    /// Writes the comment at `indent`, at the end of `into`, behind `#`, or
    /// behind `#!` where `hashbang` is set.
    ///
    /// Nothing is written where a ceiling of the encoding stands against it.
    pub fn build(&self, indent: usize, hashbang: bool, into: &mut String) -> (r: Result<
        (),
        CommentErr,
    >)
        ensures
            match r {
                Ok(()) => self@.fault(indent as nat) is None && utf8(final(into)@) == utf8(
                    old(into)@,
                ) + self@.built(indent as nat, comment_marker(hashbang)),
                Err(e) => self@.fault(indent as nat) == Some(e) && final(into)@ == old(into)@,
            },
    {
        if hashbang {
            proof {
                reveal_strlit("#!");
                lemma_utf8_ascii_text("#!"@);
                assert("#!".spec_bytes() =~= hash_bang());
            }
            self.gfm.build(indent, "#!", into)
        } else {
            proof {
                reveal_strlit("#");
                lemma_utf8_ascii_text("#"@);
                assert("#".spec_bytes() =~= hash());
            }
            self.gfm.build(indent, "#", into)
        }
    }
}

} // verus!
