//! UTF-8 storage for comments and text values.
//!
//! An [`Encoded`] keeps text exactly as it was read from a document,
//! indentation tabs included, as a slice of the caller's buffer. A program
//! that reads a document and changes a few values does not pay for decoding
//! the rest: most of it is already encoded as it has to be written.

use crate::limits::{CommentErr, MAX_INDENT, MAX_NEWLINES};
use crate::lines::{
    count_newlines, dedented, has_newline, lemma_count_concat, lemma_count_zero,
    lemma_first_newline_is, lemma_split_shape, lemma_split_single, lemma_terminated_last,
    lemma_terminated_take, reindented, split_lines, starts_with_tabs, tabs, terminated, NEWLINE,
    TAB,
};
use crate::span::{
    adopted, bytes_order, continues_at, is_extent, lemma_adopted, lemma_built_verbatim,
    lemma_content_verbatim, lemma_extent, lemma_parsed_wf, lines_order, parsed, stops_at, Order,
    Span,
};
use crate::strings::{
    lemma_boundary_after_ascii, lemma_boundary_at_ascii, push_newline, push_str, push_tabs, slice,
    utf8,
};
use vstd::prelude::*;
use vstd::string::StringExecFns;
use vstd::string::StringSliceAdditionalSpecFns;
use vstd::utf8::{
    encode_utf8_valid_utf8, is_char_boundary, is_char_boundary_start_end_of_seq, valid_utf8,
};

verus! {

/// The value of `dedent` that marks a span of a single line.
pub const SINGLE_LINE: usize = usize::MAX;

/// A span of text, kept as it stands in the document.
#[derive(Clone, Copy, Debug)]
pub struct Encoded<'a> {
    verbatim: &'a str,
    dedent: usize,
    newlines: usize,
}

/// The bytes of each string of a sequence.
pub open spec fn texts(strs: Seq<&str>) -> Seq<Seq<u8>> {
    Seq::new(strs.len(), |i: int| strs[i].spec_bytes())
}

/// The order of two byte strings.
fn order_bytes(a: &[u8], b: &[u8]) -> (r: Order)
    ensures
        r == bytes_order(a@, b@),
{
    let mut i: usize = 0;
    proof {
        assert(a@.skip(0) =~= a@);
        assert(b@.skip(0) =~= b@);
    }
    while i < a.len() && i < b.len()
        invariant
            i <= a@.len(),
            i <= b@.len(),
            bytes_order(a@, b@) == bytes_order(a@.skip(i as int), b@.skip(i as int)),
        decreases a@.len() - i,
    {
        proof {
            assert(a@.skip(i as int).drop_first() =~= a@.skip(i + 1));
            assert(b@.skip(i as int).drop_first() =~= b@.skip(i + 1));
        }
        if a[i] < b[i] {
            return Order::Less;
        }
        if a[i] > b[i] {
            return Order::Greater;
        }
        i += 1;
    }
    if i < b.len() {
        Order::Less
    } else if i < a.len() {
        Order::Greater
    } else {
        Order::Equal
    }
}

/// The order of two sequences of lines.
fn order_lines(a: &Vec<&str>, b: &Vec<&str>) -> (r: Order)
    ensures
        r == lines_order(texts(a@), texts(b@)),
{
    let ghost x = texts(a@);
    let ghost y = texts(b@);
    let mut i: usize = 0;
    proof {
        assert(x.skip(0) =~= x);
        assert(y.skip(0) =~= y);
    }
    while i < a.len() && i < b.len()
        invariant
            x == texts(a@),
            y == texts(b@),
            i <= a@.len(),
            i <= b@.len(),
            lines_order(x, y) == lines_order(x.skip(i as int), y.skip(i as int)),
        decreases a@.len() - i,
    {
        proof {
            assert(x.skip(i as int).drop_first() =~= x.skip(i + 1));
            assert(y.skip(i as int).drop_first() =~= y.skip(i + 1));
            assert(x[i as int] == a@[i as int].spec_bytes());
            assert(y[i as int] == b@[i as int].spec_bytes());
        }
        match order_bytes(a[i].as_bytes(), b[i].as_bytes()) {
            Order::Less => {
                return Order::Less;
            },
            Order::Greater => {
                return Order::Greater;
            },
            Order::Equal => {},
        }
        i += 1;
    }
    if i < b.len() {
        Order::Less
    } else if i < a.len() {
        Order::Greater
    } else {
        Order::Equal
    }
}

impl<'a> View for Encoded<'a> {
    type V = Span;

    closed spec fn view(&self) -> Span {
        Span {
            verbatim: self.verbatim.spec_bytes(),
            dedent: if self.dedent == SINGLE_LINE {
                None
            } else {
                Some(self.dedent as nat)
            },
        }
    }
}

impl<'a> Encoded<'a> {
    #[verifier::type_invariant]
    closed spec fn inv(self) -> bool {
        &&& self@.wf()
        &&& self.newlines == count_newlines(self.verbatim.spec_bytes())
    }

    /// The span that [`Encoded::adopt`] makes of `utf8`.
    pub closed spec fn adoption(utf8: &'a str) -> Self {
        Encoded {
            verbatim: utf8,
            dedent: if has_newline(utf8.spec_bytes()) {
                0
            } else {
                SINGLE_LINE
            },
            newlines: count_newlines(utf8.spec_bytes()) as usize,
        }
    }

    /// Adopts `utf8` as logical content: nothing in it is indentation.
    pub fn adopt(utf8: &'a str) -> (r: Self)
        ensures
            r == Self::adoption(utf8),
            r@ == adopted(utf8.spec_bytes()),
            r@.wf(),
            r@.content() == utf8.spec_bytes(),
    {
        let bytes = utf8.as_bytes();
        let mut newlines: usize = 0;
        let mut i: usize = 0;
        while i < bytes.len()
            invariant
                i <= bytes@.len(),
                newlines <= i,
                newlines == count_newlines(bytes@.take(i as int)),
            decreases bytes@.len() - i,
        {
            proof {
                assert(bytes@.take(i + 1).drop_last() =~= bytes@.take(i as int));
            }
            if bytes[i] == NEWLINE {
                newlines += 1;
            }
            i += 1;
        }
        proof {
            assert(bytes@.take(i as int) =~= bytes@);
            lemma_count_zero(bytes@);
            lemma_adopted(bytes@);
        }
        Encoded {
            verbatim: utf8,
            dedent: if newlines == 0 {
                SINGLE_LINE
            } else {
                0
            },
            newlines,
        }
    }

    /// Parses the span at the front of `source`, which starts right behind a
    /// marker that stands at indentation `indent`.
    ///
    /// The span runs across every line that follows a line terminator and
    /// `indent + 1` tabs. It ends in front of the first line terminator that
    /// is not followed by that many tabs, or at the end of `source`. No byte
    /// is copied: the span is a slice of `source`.
    pub fn parse(source: &'a str, indent: usize) -> (r: Self)
        ensures
            r@ == parsed(source.spec_bytes(), indent as nat),
            r@.wf(),
            is_extent(source.spec_bytes(), indent as nat + 1, r@.verbatim.len() as int),
    {
        let bytes = source.as_bytes();
        let ghost src = source.spec_bytes();
        let ghost depth = indent as nat + 1;
        let mut newlines: usize = 0;
        let mut cursor: usize = 0;
        let mut stopped = false;
        proof {
            assert(src.len() == bytes.len());
            assert(src.take(0) =~= Seq::<u8>::empty());
        }
        while !stopped && cursor < bytes.len()
            invariant
                bytes@ == src,
                src.len() <= usize::MAX,
                depth == indent as nat + 1,
                cursor <= src.len(),
                newlines <= cursor,
                newlines == count_newlines(src.take(cursor as int)),
                newlines > 0 ==> indent + 1 < src.len(),
                forall|c: int| 0 <= c < cursor ==> !stops_at(src, c, depth),
                stopped ==> cursor < src.len() && stops_at(src, cursor as int, depth),
            decreases src.len() - cursor + if stopped { 0int } else { 1int },
        {
            if bytes[cursor] != NEWLINE {
                proof {
                    assert(src.take(cursor + 1).drop_last() =~= src.take(cursor as int));
                }
                cursor += 1;
            } else {
                let room = bytes.len() - cursor - 1;
                if indent >= room {
                    stopped = true;
                } else {
                    let more = indent + 1;
                    let mut offset: usize = 0;
                    while offset < more && bytes[cursor + 1 + offset] == TAB
                        invariant
                            bytes@ == src,
                            src.len() <= usize::MAX,
                            more == indent + 1,
                            cursor + more < src.len(),
                            offset <= more,
                            forall|k: int| cursor < k <= cursor + offset ==> src[k] == TAB,
                        decreases more - offset,
                    {
                        offset += 1;
                    }
                    if offset < more {
                        proof {
                            assert(src[cursor + 1 + offset] != TAB);
                        }
                        stopped = true;
                    } else {
                        proof {
                            assert(continues_at(src, cursor as int, depth));
                            let next = (cursor + 1 + more) as int;
                            let gap = src.subrange(cursor as int, next);
                            assert(src.take(next) =~= src.take(cursor as int) + gap);
                            lemma_count_concat(src.take(cursor as int), gap);
                            lemma_count_concat(seq![NEWLINE], gap.skip(1));
                            assert(gap =~= seq![NEWLINE] + gap.skip(1));
                            assert(!has_newline(gap.skip(1))) by {
                                if has_newline(gap.skip(1)) {
                                    let j = choose|j: int|
                                        0 <= j < gap.skip(1).len() && gap.skip(1)[j] == NEWLINE;
                                    assert(src[cursor + 1 + j] == TAB);
                                }
                            }
                            lemma_count_zero(gap.skip(1));
                            assert(count_newlines(seq![NEWLINE]) == 1) by {
                                reveal_with_fuel(count_newlines, 2);
                                assert(seq![NEWLINE].drop_last() =~= Seq::<u8>::empty());
                            }
                            assert forall|c: int| cursor <= c < next implies !stops_at(
                                src,
                                c,
                                depth,
                            ) by {
                                if c > cursor {
                                    assert(src[c] == TAB);
                                }
                            }
                        }
                        cursor += 1 + more;
                        newlines += 1;
                    }
                }
            }
        }
        proof {
            encode_utf8_valid_utf8(source@);
            lemma_boundary_at_ascii(src, cursor as int);
            lemma_extent(src, depth);
            assert(is_extent(src, depth, cursor as int));
            lemma_count_zero(src.take(cursor as int));
            lemma_parsed_wf(src, indent as nat);
        }
        let verbatim = slice(source, 0, cursor);
        assert(verbatim.spec_bytes() =~= src.take(cursor as int));
        Encoded {
            verbatim,
            dedent: if newlines == 0 {
                SINGLE_LINE
            } else {
                indent + 1
            },
            newlines,
        }
    }

    /// Number of bytes of the span as it stands in the document.
    pub fn len(&self) -> (n: usize)
        ensures
            n == self@.verbatim.len(),
    {
        self.verbatim.as_bytes().len()
    }

    /// The span as it stands in the document.
    pub fn verbatim(&self) -> (r: &'a str)
        ensures
            r.spec_bytes() == self@.verbatim,
            self@.wf(),
    {
        proof {
            use_type_invariant(self);
        }
        self.verbatim
    }

    /// The logical lines, without line terminators and without the tabs of
    /// indentation. No byte is copied: every line is a slice of the span.
    pub fn lines(&self) -> (r: Vec<&'a str>)
        ensures
            texts(r@) == self@.lines(),
    {
        let bytes = self.verbatim.as_bytes();
        let d: usize = if self.dedent == SINGLE_LINE {
            0
        } else {
            self.dedent
        };
        let ghost b = self.verbatim.spec_bytes();
        let ghost raw = split_lines(b);
        let ghost logical = self@.lines();
        let mut out: Vec<&'a str> = Vec::new();
        let mut start: usize = 0;
        let mut i: usize = 0;
        proof {
            use_type_invariant(self);
            encode_utf8_valid_utf8(self.verbatim@);
            is_char_boundary_start_end_of_seq(b);
            lemma_split_shape(b);
            if self.dedent == SINGLE_LINE {
                lemma_split_single(b);
            }
            assert(b.skip(0) =~= b);
            assert(raw.take(0) + raw =~= raw);
        }
        while i < bytes.len()
            invariant
                bytes@ == b,
                b == self.verbatim.spec_bytes(),
                valid_utf8(b),
                raw == split_lines(b),
                logical == dedented(raw, d as nat),
                start <= i <= b.len(),
                is_char_boundary(b, start as int),
                forall|j: int| start <= j < i ==> b[j] != NEWLINE,
                out@.len() < raw.len(),
                raw == raw.take(out@.len() as int) + split_lines(b.skip(start as int)),
                forall|k: int| 1 <= k < raw.len() ==> starts_with_tabs(#[trigger] raw[k], d as nat),
                forall|k: int| 0 <= k < out@.len() ==> (#[trigger] out@[k]).spec_bytes() == logical[k],
            decreases b.len() - i,
        {
            if bytes[i] == NEWLINE {
                let ghost n = out@.len() as int;
                let ghost tail = b.skip(start as int);
                proof {
                    lemma_first_newline_is(tail, i - start);
                    assert(tail.take(i - start) =~= b.subrange(start as int, i as int));
                    assert(tail.skip(i - start + 1) =~= b.skip(i + 1));
                    assert(split_lines(tail)[0] == b.subrange(start as int, i as int));
                    assert(raw[n] == b.subrange(start as int, i as int));
                    lemma_split_shape(b.skip(i + 1));
                    assert(raw.take(n + 1) =~= raw.take(n) + seq![raw[n]]);
                    assert(raw =~= raw.take(n + 1) + split_lines(b.skip(i + 1)));
                    if n > 0 {
                        assert(starts_with_tabs(raw[n], d as nat));
                    }
                }
                let from = if out.len() == 0 {
                    start
                } else {
                    start + d
                };
                proof {
                    if from > start {
                        assert(raw[n][d - 1] == TAB);
                        assert(b[from - 1] == TAB);
                        lemma_boundary_after_ascii(b, from - 1);
                    }
                    lemma_boundary_at_ascii(b, i as int);
                    lemma_boundary_after_ascii(b, i as int);
                }
                let piece = slice(self.verbatim, from, i);
                proof {
                    if n > 0 {
                        assert(piece.spec_bytes() =~= raw[n].skip(d as int));
                    }
                }
                out.push(piece);
                start = i + 1;
            }
            i += 1;
        }
        let ghost n = out@.len() as int;
        proof {
            let tail = b.skip(start as int);
            assert(!has_newline(tail)) by {
                if has_newline(tail) {
                    let j = choose|j: int| 0 <= j < tail.len() && tail[j] == NEWLINE;
                    assert(b[start + j] == NEWLINE);
                }
            }
            lemma_split_single(tail);
            assert(raw =~= raw.take(n) + seq![tail]);
            assert(raw[n] == tail);
            if n > 0 {
                assert(starts_with_tabs(raw[n], d as nat));
            }
        }
        let from = if out.len() == 0 {
            start
        } else {
            start + d
        };
        proof {
            if from > start {
                assert(raw[n][d - 1] == TAB);
                assert(b[from - 1] == TAB);
                lemma_boundary_after_ascii(b, from - 1);
            }
            is_char_boundary_start_end_of_seq(b);
        }
        let piece = slice(self.verbatim, from, bytes.len());
        proof {
            assert(b.subrange(start as int, b.len() as int) =~= b.skip(start as int));
            if n > 0 {
                assert(piece.spec_bytes() =~= raw[n].skip(d as int));
            }
        }
        out.push(piece);
        assert(texts(out@) =~= logical);
        out
    }

    /// The logical content in a string of its own: the logical lines, joined
    /// by line terminators.
    pub fn to_string(&self) -> (r: String)
        ensures
            utf8(r@) == self@.content(),
    {
        if self.dedent == 0 || self.dedent == SINGLE_LINE {
            proof {
                use_type_invariant(self);
                lemma_content_verbatim(self@);
            }
            return String::from_str(self.verbatim);
        }
        let lines = self.lines();
        let ghost logical = self@.lines();
        let mut out = String::new();
        let mut k: usize = 0;
        proof {
            assert(logical.take(0) =~= Seq::<Seq<u8>>::empty());
            assert(utf8(out@) =~= Seq::<u8>::empty());
        }
        while k < lines.len()
            invariant
                k <= lines@.len(),
                texts(lines@) == logical,
                k == 0 ==> utf8(out@) == Seq::<u8>::empty(),
                k > 0 ==> utf8(out@) + seq![NEWLINE] == terminated(logical.take(k as int)),
            decreases lines@.len() - k,
        {
            proof {
                lemma_terminated_take(logical, k as int);
                assert(texts(lines@)[k as int] == lines@[k as int].spec_bytes());
            }
            if k > 0 {
                push_newline(&mut out);
            }
            push_str(&mut out, lines[k]);
            proof {
                if k > 0 {
                    assert(utf8(out@) + seq![NEWLINE] =~= terminated(logical.take(k as int))
                        + logical[k as int] + seq![NEWLINE]);
                } else {
                    assert(utf8(out@) + seq![NEWLINE] =~= terminated(logical.take(0))
                        + logical[0] + seq![NEWLINE]);
                }
            }
            k += 1;
        }
        proof {
            assert(logical.take(k as int) =~= logical);
            lemma_terminated_last(logical);
            assert((utf8(out@) + seq![NEWLINE]).drop_last() =~= utf8(out@));
        }
        out
    }

    /// How the span stands to `other` in the order of spans. Spans that are
    /// indented alike are ordered by their bytes as they stand, others by
    /// their logical lines; in both cases as words stand in a dictionary.
    pub fn order(&self, other: &Encoded) -> (r: Order)
        ensures
            r == self@.order(other@),
            self@.wf(),
            other@.wf(),
    {
        proof {
            use_type_invariant(self);
            use_type_invariant(other);
        }
        if self.dedent == other.dedent {
            order_bytes(self.verbatim.as_bytes(), other.verbatim.as_bytes())
        } else {
            let mine = self.lines();
            let theirs = other.lines();
            order_lines(&mine, &theirs)
        }
    }

    /// Tells whether a ceiling of the encoding stands against writing the
    /// span at `indent`, and which.
    pub fn check(&self, indent: usize) -> (r: Result<(), CommentErr>)
        ensures
            match r {
                Ok(()) => self@.fault(indent as nat) is None,
                Err(e) => self@.fault(indent as nat) == Some(e),
            },
    {
        proof {
            use_type_invariant(self);
        }
        if indent > MAX_INDENT {
            Err(CommentErr::IndentTooLarge(indent))
        } else if self.newlines > MAX_NEWLINES {
            Err(CommentErr::TooManyLines(self.newlines))
        } else {
            Ok(())
        }
    }

    /// Writes the span at `indent` behind `marker`, at the end of `into`.
    ///
    /// Nothing is written where a ceiling of the encoding stands against it.
    /// Otherwise `indent` tabs and the marker are written, then the first
    /// line, then every continuation line behind `indent + 1` tabs, every
    /// line with its terminator. A span that already stands at this depth is
    /// written as it stands.
    pub fn build(&self, indent: usize, marker: &str, into: &mut String) -> (r: Result<
        (),
        CommentErr,
    >)
        ensures
            match r {
                Ok(()) => self@.fault(indent as nat) is None && utf8(final(into)@) == utf8(
                    old(into)@,
                ) + self@.built(indent as nat, marker.spec_bytes()),
                Err(e) => self@.fault(indent as nat) == Some(e) && final(into)@ == old(into)@,
            },
    {
        proof {
            use_type_invariant(self);
        }
        if indent > MAX_INDENT {
            return Err(CommentErr::IndentTooLarge(indent));
        }
        if self.newlines > MAX_NEWLINES {
            return Err(CommentErr::TooManyLines(self.newlines));
        }
        let ghost base = utf8(into@);
        let ghost mark = marker.spec_bytes();
        push_tabs(into, indent);
        push_str(into, marker);
        let more = indent + 1;
        if more == self.dedent || self.dedent == SINGLE_LINE {
            push_str(into, self.verbatim);
            push_newline(into);
            proof {
                lemma_built_verbatim(self@, indent as nat, mark);
                assert(utf8(into@) =~= base + (tabs(indent as nat) + mark + self@.verbatim + seq![
                    NEWLINE,
                ]));
            }
        } else {
            let lines = self.lines();
            let ghost logical = self@.lines();
            let ghost there = reindented(logical, more as nat);
            let mut k: usize = 0;
            proof {
                assert(there.take(0) =~= Seq::<Seq<u8>>::empty());
                assert(utf8(into@) =~= base + tabs(indent as nat) + mark + terminated(
                    there.take(0),
                ));
            }
            while k < lines.len()
                invariant
                    k <= lines@.len(),
                    texts(lines@) == logical,
                    there == reindented(logical, more as nat),
                    utf8(into@) == base + tabs(indent as nat) + mark + terminated(
                        there.take(k as int),
                    ),
                decreases lines@.len() - k,
            {
                proof {
                    lemma_terminated_take(there, k as int);
                    assert(texts(lines@)[k as int] == lines@[k as int].spec_bytes());
                }
                let ghost before = utf8(into@);
                if k > 0 {
                    push_tabs(into, more);
                }
                push_str(into, lines[k]);
                push_newline(into);
                proof {
                    assert(utf8(into@) =~= before + there[k as int] + seq![NEWLINE]);
                    assert(utf8(into@) =~= base + tabs(indent as nat) + mark + terminated(
                        there.take(k + 1),
                    ));
                }
                k += 1;
            }
            proof {
                assert(there.take(k as int) =~= there);
                assert(utf8(into@) =~= base + (tabs(indent as nat) + mark + terminated(there)));
            }
        }
        Ok(())
    }
}

} // verus!
