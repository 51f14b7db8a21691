//! The mathematical model of an encoded span of text.
//!
//! A span is the text of one comment or one text value exactly as it stands
//! in a document: the first line, then every further line behind a line
//! terminator and a run of tabs. What the span means, its logical lines, is
//! that text with the tabs taken off.

use crate::limits::{CommentErr, MAX_INDENT, MAX_NEWLINES};
use crate::lines::{
    count_newlines, dedented, first_newline, has_newline, joined, lemma_count_zero,
    lemma_dedented_reindented, lemma_first_newline, lemma_joined_split, lemma_no_newline_kept,
    lemma_reindented_dedented, lemma_split_joined, lemma_split_shape, lemma_split_single,
    lemma_terminated_last, lemma_terminated_split, lemma_terminated_take, reindented, split_lines,
    starts_with_tabs, tabs, terminated, NEWLINE, TAB,
};
use vstd::prelude::*;

verus! {

/// What an encoded span holds.
pub struct Span {
    /// The bytes as they stand in the document, continuation tabs included.
    pub verbatim: Seq<u8>,
    /// How many tabs lead every continuation line; `None` for a span of a
    /// single line.
    pub dedent: Option<nat>,
}

impl Span {
    /// Number of bytes to take off the front of a continuation line.
    pub open spec fn strip(self) -> nat {
        match self.dedent {
            Some(d) => d,
            None => 0,
        }
    }

    /// The lines as they stand in the document.
    pub open spec fn raw_lines(self) -> Seq<Seq<u8>> {
        split_lines(self.verbatim)
    }

    /// The logical lines: the first line as it stands, every other line
    /// without its leading tabs.
    pub open spec fn lines(self) -> Seq<Seq<u8>> {
        dedented(split_lines(self.verbatim), self.strip())
    }

    /// The invariant of a span: a span marked as a single line holds no line
    /// terminator, and in any other every continuation line starts with the
    /// tabs that `dedent` counts.
    pub open spec fn wf(self) -> bool {
        match self.dedent {
            None => !has_newline(self.verbatim),
            Some(d) => forall|i: int|
                1 <= i < split_lines(self.verbatim).len() ==> starts_with_tabs(
                    #[trigger] split_lines(self.verbatim)[i],
                    d,
                ),
        }
    }

    /// The logical content: the logical lines joined by line terminators.
    pub open spec fn content(self) -> Seq<u8> {
        joined(self.lines())
    }

    /// Number of line terminators in the span, which is the number of its
    /// continuation lines.
    pub open spec fn newlines(self) -> nat {
        count_newlines(self.verbatim)
    }

    /// The ceiling that stands against writing the span at `indent`, if any.
    /// The indentation is looked at first.
    pub open spec fn fault(self, indent: nat) -> Option<CommentErr> {
        if indent > MAX_INDENT {
            Some(CommentErr::IndentTooLarge(indent as usize))
        } else if self.newlines() > MAX_NEWLINES {
            Some(CommentErr::TooManyLines(self.newlines() as usize))
        } else {
            None
        }
    }

    /// The span as it is written at `indent` behind `marker`: the tabs of the
    /// indentation, the marker and the first line, then every continuation
    /// line behind `indent + 1` tabs; every line with its terminator.
    pub open spec fn built(self, indent: nat, marker: Seq<u8>) -> Seq<u8> {
        tabs(indent) + marker + terminated(reindented(self.lines(), indent + 1))
    }

    /// The span that stands in the document once this one has been written
    /// at `indent`: the same logical lines, the continuation lines behind
    /// `indent + 1` tabs.
    pub open spec fn moved(self, indent: nat) -> Span {
        Span {
            verbatim: joined(reindented(self.lines(), indent + 1)),
            dedent: if self.lines().len() > 1 {
                Some(indent + 1)
            } else {
                None
            },
        }
    }
}

/// Whether the line terminator at `at` is followed by `depth` tabs, so that
/// the line behind it continues a span.
pub open spec fn continues_at(src: Seq<u8>, at: int, depth: nat) -> bool {
    &&& at + depth < src.len()
    &&& forall|k: int| at < k <= at + depth ==> src[k] == TAB
}

/// Whether a span ends at `at`: there is a line terminator there, and the
/// line behind it does not continue the span.
pub open spec fn stops_at(src: Seq<u8>, at: int, depth: nat) -> bool {
    src[at] == NEWLINE && !continues_at(src, at, depth)
}

/// Whether `n` is where a span that starts at the front of `src` ends: the
/// first place at which it stops, or the end of `src`.
pub open spec fn is_extent(src: Seq<u8>, depth: nat, n: int) -> bool {
    &&& 0 <= n <= src.len()
    &&& n < src.len() ==> stops_at(src, n, depth)
    &&& forall|c: int| 0 <= c < n ==> !stops_at(src, c, depth)
}

/// The first place at or behind `from` at which a span stops, or the length
/// of `src`.
pub open spec fn extent_from(src: Seq<u8>, depth: nat, from: int) -> int
    decreases src.len() - from,
{
    if from < 0 || from >= src.len() {
        src.len() as int
    } else if stops_at(src, from, depth) {
        from
    } else {
        extent_from(src, depth, from + 1)
    }
}

/// Number of bytes of `src` that a span with continuation lines behind
/// `depth` tabs takes up.
pub open spec fn extent(src: Seq<u8>, depth: nat) -> int {
    extent_from(src, depth, 0)
}

/// The span that parsing finds at the front of `src`, where `src` starts
/// right behind a marker at indentation `indent`.
pub open spec fn parsed(src: Seq<u8>, indent: nat) -> Span {
    let verbatim = src.take(extent(src, indent + 1));
    Span {
        verbatim,
        dedent: if has_newline(verbatim) {
            Some(indent + 1)
        } else {
            None
        },
    }
}

/// The span that holds `text` as its logical content, nothing indented.
pub open spec fn adopted(text: Seq<u8>) -> Span {
    Span {
        verbatim: text,
        dedent: if has_newline(text) {
            Some(0nat)
        } else {
            None
        },
    }
}

proof fn lemma_extent_from(src: Seq<u8>, depth: nat, from: int)
    requires
        0 <= from <= src.len(),
    ensures
        from <= extent_from(src, depth, from) <= src.len(),
        extent_from(src, depth, from) < src.len() ==> stops_at(
            src,
            extent_from(src, depth, from),
            depth,
        ),
        forall|c: int| from <= c < extent_from(src, depth, from) ==> !stops_at(src, c, depth),
    decreases src.len() - from,
{
    if from < src.len() && !stops_at(src, from, depth) {
        lemma_extent_from(src, depth, from + 1);
    }
}

/// `extent` is an extent, and the only one.
pub proof fn lemma_extent(src: Seq<u8>, depth: nat)
    ensures
        is_extent(src, depth, extent(src, depth)),
        forall|n: int| is_extent(src, depth, n) ==> n == extent(src, depth),
{
    lemma_extent_from(src, depth, 0);
    let e = extent(src, depth);
    assert forall|n: int| is_extent(src, depth, n) implies n == e by {
        if n < e {
            assert(!stops_at(src, n, depth));
        } else if e < n {
            assert(stops_at(src, e, depth));
        }
    }
}

/// Where every line terminator of `v` is followed by `depth` tabs, every
/// line of `v` but the first starts with them.
pub proof fn lemma_continued_lines(v: Seq<u8>, depth: nat)
    requires
        forall|c: int| 0 <= c < v.len() && v[c] == NEWLINE ==> continues_at(v, c, depth),
    ensures
        forall|i: int|
            1 <= i < split_lines(v).len() ==> starts_with_tabs(#[trigger] split_lines(v)[i], depth),
    decreases v.len(),
{
    lemma_first_newline(v);
    let f = first_newline(v);
    if f < v.len() {
        let rest = v.skip(f + 1);
        assert(continues_at(v, f, depth));
        assert forall|c: int| 0 <= c < rest.len() && rest[c] == NEWLINE implies continues_at(
            rest,
            c,
            depth,
        ) by {
            assert(v[c + f + 1] == NEWLINE);
            assert(continues_at(v, c + f + 1, depth));
            assert forall|k: int| c < k <= c + depth implies rest[k] == TAB by {
                assert(v[k + f + 1] == TAB);
            }
        }
        lemma_continued_lines(rest, depth);
        // The line right behind the first terminator starts with the tabs.
        lemma_first_newline(rest);
        let g = first_newline(rest);
        assert forall|j: int| 0 <= j < depth implies rest[j] == TAB by {
            assert(v[j + f + 1] == TAB);
        }
        if g < depth {
            assert(rest[g] == TAB);
        }
        let second = split_lines(rest)[0];
        assert(second =~= rest.take(g));
        assert(starts_with_tabs(second, depth));
        assert forall|i: int| 1 <= i < split_lines(v).len() implies starts_with_tabs(
            #[trigger] split_lines(v)[i],
            depth,
        ) by {
            assert(split_lines(v)[i] == split_lines(rest)[i - 1]);
        }
    }
}

/// What parsing finds is a well-formed span.
pub proof fn lemma_parsed_wf(src: Seq<u8>, indent: nat)
    ensures
        parsed(src, indent).wf(),
{
    let depth = indent + 1;
    let span = parsed(src, indent);
    let v = span.verbatim;
    lemma_extent(src, depth);
    let e = extent(src, depth);
    if has_newline(v) {
        assert forall|c: int| 0 <= c < v.len() && v[c] == NEWLINE implies continues_at(
            v,
            c,
            depth,
        ) by {
            assert(!stops_at(src, c, depth));
            assert(continues_at(src, c, depth));
            // The tabs behind the terminator are no place to stop, so they
            // lie inside the span.
            if e <= c + depth {
                assert(src[e] == NEWLINE);
                assert(src[e] == TAB);
            }
            assert forall|k: int| c < k <= c + depth implies v[k] == TAB by {
                assert(src[k] == TAB);
            }
        }
        lemma_continued_lines(v, depth);
    }
}

/// An adopted text is a well-formed span whose logical content is the text.
pub proof fn lemma_adopted(text: Seq<u8>)
    ensures
        adopted(text).wf(),
        adopted(text).lines() == split_lines(text),
        adopted(text).content() == text,
{
    let span = adopted(text);
    assert(span.lines() =~= split_lines(text)) by {
        assert forall|i: int| 0 <= i < split_lines(text).len() implies span.lines()[i]
            == split_lines(text)[i] by {
            assert(split_lines(text)[i].skip(0) =~= split_lines(text)[i]);
        }
    }
    lemma_joined_split(text);
}

/// Written at the depth at which it already stands, a span is written as it
/// stands: indentation, marker, the verbatim bytes, and one line terminator.
pub proof fn lemma_built_verbatim(span: Span, indent: nat, marker: Seq<u8>)
    requires
        span.wf(),
        span.dedent is None || span.dedent == Some(indent + 1),
    ensures
        span.built(indent, marker) == tabs(indent) + marker + span.verbatim + seq![NEWLINE],
{
    let raw = split_lines(span.verbatim);
    lemma_terminated_split(span.verbatim);
    if span.dedent is None {
        lemma_split_single(span.verbatim);
        assert(reindented(span.lines(), indent + 1) =~= raw);
    } else {
        lemma_reindented_dedented(raw, indent + 1);
    }
    assert(tabs(indent) + marker + (span.verbatim + seq![NEWLINE]) =~= tabs(indent) + marker
        + span.verbatim + seq![NEWLINE]);
}

/// A span without indentation is its own logical content.
pub proof fn lemma_content_verbatim(span: Span)
    requires
        span.wf(),
        span.dedent is None || span.dedent == Some(0nat),
    ensures
        span.content() == span.verbatim,
{
    let raw = split_lines(span.verbatim);
    assert forall|i: int| 0 <= i < raw.len() implies span.lines()[i] == raw[i] by {
        assert(raw[i].skip(0) =~= raw[i]);
    }
    assert(span.lines() =~= raw);
    lemma_joined_split(span.verbatim);
}

/// The logical lines of a well-formed span hold no line terminator, and
/// there is one more of them than the span holds terminators.
pub proof fn lemma_lines_shape(span: Span)
    requires
        span.wf(),
    ensures
        span.lines().len() == span.newlines() + 1,
        forall|i: int| 0 <= i < span.lines().len() ==> !has_newline(#[trigger] span.lines()[i]),
{
    let raw = split_lines(span.verbatim);
    lemma_split_shape(span.verbatim);
    assert forall|i: int| 0 <= i < span.lines().len() implies !has_newline(
        #[trigger] span.lines()[i],
    ) by {
        assert(!has_newline(raw[i]));
        if i > 0 {
            if span.dedent is Some {
                assert(starts_with_tabs(raw[i], span.strip()));
            }
            lemma_no_newline_kept(raw[i], span.strip());
        }
    }
}

/// Reindentation keeps the content. Written at any depth, a span leaves in
/// the document a span with the same logical lines, whose continuation lines
/// are those lines behind exactly `indent + 1` tabs; and parsing that text
/// again at `indent` finds that span and all of its bytes.
pub proof fn lemma_moved(span: Span, indent: nat, marker: Seq<u8>)
    requires
        span.wf(),
    ensures
        span.built(indent, marker) == tabs(indent) + marker + span.moved(indent).verbatim
            + seq![NEWLINE],
        span.moved(indent).wf(),
        span.moved(indent).lines() == span.lines(),
        span.moved(indent).raw_lines() == reindented(span.lines(), indent + 1),
        parsed(span.moved(indent).verbatim, indent) == span.moved(indent),
{
    let depth = indent + 1;
    let lines = span.lines();
    let there = reindented(lines, depth);
    let moved = span.moved(indent);
    let v = moved.verbatim;
    lemma_lines_shape(span);
    assert forall|i: int| 0 <= i < there.len() implies !has_newline(#[trigger] there[i]) by {
        assert(!has_newline(lines[i]));
        lemma_no_newline_kept(lines[i], depth);
    }
    lemma_split_joined(there);
    lemma_terminated_last(there);
    lemma_dedented_reindented(lines, depth);
    assert(tabs(indent) + marker + (v + seq![NEWLINE]) =~= tabs(indent) + marker + v + seq![
        NEWLINE,
    ]);
    lemma_split_shape(v);
    lemma_count_zero(v);
    if lines.len() > 1 {
        assert(moved.lines() == lines);
    } else {
        assert(moved.lines() =~= lines) by {
            assert(there[0].skip(0) =~= there[0]);
        }
    }
    // Every terminator of the text is followed by the tabs of the line behind
    // it, so the text is one span to its end.
    lemma_terminators_continue(there, depth);
    assert forall|c: int| 0 <= c < v.len() implies !stops_at(v, c, depth) by {
        if v[c] == NEWLINE {
            assert(continues_at(v, c, depth));
        }
    }
    lemma_extent(v, depth);
    assert(is_extent(v, depth, v.len() as int));
    assert(v.take(v.len() as int) =~= v);
}

/// In the joined text of lines that hold no terminator and of which all but
/// the first start with `depth` tabs, every terminator is followed by
/// `depth` tabs.
pub proof fn lemma_terminators_continue(lines: Seq<Seq<u8>>, depth: nat)
    requires
        lines.len() > 0,
        forall|i: int| 0 <= i < lines.len() ==> !has_newline(#[trigger] lines[i]),
        forall|i: int| 1 <= i < lines.len() ==> starts_with_tabs(#[trigger] lines[i], depth),
    ensures
        forall|c: int|
            0 <= c < joined(lines).len() && joined(lines)[c] == NEWLINE ==> continues_at(
                joined(lines),
                c,
                depth,
            ),
    decreases lines.len(),
{
    let v = joined(lines);
    let rest = lines.drop_first();
    if rest.len() == 0 {
        assert(terminated(rest) =~= Seq::<u8>::empty());
        assert(v =~= lines[0]);
        assert forall|c: int| 0 <= c < v.len() && v[c] == NEWLINE implies continues_at(
            v,
            c,
            depth,
        ) by {
            assert(!has_newline(lines[0]));
        }
    } else {
        assert forall|i: int| 0 <= i < rest.len() implies !has_newline(#[trigger] rest[i]) by {
            assert(rest[i] == lines[i + 1]);
        }
        assert forall|i: int| 1 <= i < rest.len() implies starts_with_tabs(
            #[trigger] rest[i],
            depth,
        ) by {
            assert(rest[i] == lines[i + 1]);
        }
        lemma_terminators_continue(rest, depth);
        lemma_terminated_last(rest);
        let w = joined(rest);
        let head = lines[0];
        assert(v =~= head + seq![NEWLINE] + w);
        let base = head.len() as int + 1;
        // The text behind the first terminator starts with the second line.
        assert(rest[0] == lines[1]);
        assert(starts_with_tabs(rest[0], depth));
        assert(terminated(rest) =~= rest[0] + seq![NEWLINE] + terminated(rest.drop_first()));
        assert forall|j: int| 0 <= j < depth implies w[j] == TAB by {
            assert(terminated(rest)[j] == rest[0][j]);
        }
        assert(depth <= w.len());
        assert forall|c: int| 0 <= c < v.len() && v[c] == NEWLINE implies continues_at(
            v,
            c,
            depth,
        ) by {
            if c < head.len() {
                assert(head[c] == NEWLINE);
                assert(!has_newline(head));
            } else if c == head.len() {
                assert forall|k: int| c < k <= c + depth implies v[k] == TAB by {
                    assert(v[k] == w[k - base]);
                }
            } else {
                assert(w[c - base] == NEWLINE);
                assert(continues_at(w, c - base, depth));
                assert forall|k: int| c < k <= c + depth implies v[k] == TAB by {
                    assert(v[k] == w[k - base]);
                }
            }
        }
    }
}

/// Round trip of a span. What parsing finds at the front of `src` is written
/// back, at the depth at which it was found, as the very bytes that parsing
/// took from `src`, between the indentation with the marker and one line
/// terminator.
pub proof fn lemma_round_trip(src: Seq<u8>, indent: nat, marker: Seq<u8>)
    ensures
        parsed(src, indent).built(indent, marker) == tabs(indent) + marker + src.take(
            extent(src, indent + 1),
        ) + seq![NEWLINE],
{
    lemma_parsed_wf(src, indent);
    lemma_built_verbatim(parsed(src, indent), indent, marker);
}

/// How one value stands to another in an order.
#[derive(Clone, Copy, Debug, PartialEq, Eq, Structural)]
pub enum Order {
    /// The first comes before the second.
    Less,
    /// The two are the same.
    Equal,
    /// The first comes after the second.
    Greater,
}

/// The order of two byte sequences as words in a dictionary stand: the first
/// byte in which they differ decides, and a sequence comes before every
/// longer one that starts with it.
pub open spec fn bytes_order(a: Seq<u8>, b: Seq<u8>) -> Order
    decreases a.len(),
{
    if a.len() == 0 {
        if b.len() == 0 {
            Order::Equal
        } else {
            Order::Less
        }
    } else if b.len() == 0 {
        Order::Greater
    } else if a[0] < b[0] {
        Order::Less
    } else if a[0] > b[0] {
        Order::Greater
    } else {
        bytes_order(a.drop_first(), b.drop_first())
    }
}

/// The order of two sequences of lines: the first line in which they differ
/// decides, by the order of its bytes, and a sequence comes before every
/// longer one that starts with it.
pub open spec fn lines_order(a: Seq<Seq<u8>>, b: Seq<Seq<u8>>) -> Order
    decreases a.len(),
{
    if a.len() == 0 {
        if b.len() == 0 {
            Order::Equal
        } else {
            Order::Less
        }
    } else if b.len() == 0 {
        Order::Greater
    } else if bytes_order(a[0], b[0]) != Order::Equal {
        bytes_order(a[0], b[0])
    } else {
        lines_order(a.drop_first(), b.drop_first())
    }
}

impl Span {
    /// The order of two spans. Spans that are indented alike are ordered by
    /// their bytes as they stand, others by their logical lines.
    pub open spec fn order(self, other: Span) -> Order {
        if self.dedent == other.dedent {
            bytes_order(self.verbatim, other.verbatim)
        } else {
            lines_order(self.lines(), other.lines())
        }
    }
}

/// Byte sequences are equal in the order exactly when they are the same.
pub proof fn lemma_bytes_order_equal(a: Seq<u8>, b: Seq<u8>)
    ensures
        bytes_order(a, b) == Order::Equal <==> a == b,
    decreases a.len(),
{
    if a.len() > 0 && b.len() > 0 {
        lemma_bytes_order_equal(a.drop_first(), b.drop_first());
        if a[0] == b[0] && a.drop_first() == b.drop_first() {
            assert(a =~= seq![a[0]] + a.drop_first());
            assert(b =~= seq![b[0]] + b.drop_first());
        }
    } else if a.len() == 0 && b.len() == 0 {
        assert(a =~= b);
    }
}

/// Sequences of lines are equal in the order exactly when they are the same.
pub proof fn lemma_lines_order_equal(a: Seq<Seq<u8>>, b: Seq<Seq<u8>>)
    ensures
        lines_order(a, b) == Order::Equal <==> a == b,
    decreases a.len(),
{
    if a.len() > 0 && b.len() > 0 {
        lemma_lines_order_equal(a.drop_first(), b.drop_first());
        lemma_bytes_order_equal(a[0], b[0]);
        if a[0] == b[0] && a.drop_first() == b.drop_first() {
            assert(a =~= seq![a[0]] + a.drop_first());
            assert(b =~= seq![b[0]] + b.drop_first());
        }
    } else if a.len() == 0 && b.len() == 0 {
        assert(a =~= b);
    }
}

/// Well-formed spans are equal in the order exactly when they have the same
/// logical lines, however they are indented.
pub proof fn lemma_order_equal(a: Span, b: Span)
    requires
        a.wf(),
        b.wf(),
    ensures
        a.order(b) == Order::Equal <==> a.lines() == b.lines(),
{
    if a.dedent == b.dedent {
        lemma_bytes_order_equal(a.verbatim, b.verbatim);
        if a.lines() == b.lines() {
            lemma_verbatim_of_lines(a);
            lemma_verbatim_of_lines(b);
        }
    } else {
        lemma_lines_order_equal(a.lines(), b.lines());
    }
}

/// The bytes of a well-formed span are its logical lines, indented as its
/// `dedent` says and joined.
pub proof fn lemma_verbatim_of_lines(span: Span)
    requires
        span.wf(),
    ensures
        span.verbatim == joined(reindented(span.lines(), span.strip())),
{
    let raw = split_lines(span.verbatim);
    lemma_joined_split(span.verbatim);
    if span.dedent is None {
        lemma_split_single(span.verbatim);
        assert(reindented(span.lines(), 0) =~= raw) by {
            assert(raw[0].skip(0) =~= raw[0]);
        }
    } else {
        lemma_reindented_dedented(raw, span.strip());
    }
}

/// Indenting the continuation lines by `deep` tabs in place of `shallow`
/// adds the difference once for every continuation line.
pub proof fn lemma_reindented_len(lines: Seq<Seq<u8>>, deep: nat, shallow: nat)
    requires
        lines.len() > 0,
    ensures
        terminated(reindented(lines, deep)).len() - terminated(reindented(lines, shallow)).len()
            == (deep - shallow) * (lines.len() - 1),
    decreases lines.len(),
{
    let a = reindented(lines, deep);
    let b = reindented(lines, shallow);
    let n = lines.len() as int;
    lemma_terminated_take(a, n - 1);
    lemma_terminated_take(b, n - 1);
    assert(a.take(n) =~= a);
    assert(b.take(n) =~= b);
    if n == 1 {
        assert(a.take(0) =~= b.take(0));
    } else {
        let front = lines.drop_last();
        lemma_reindented_len(front, deep, shallow);
        assert(a.take(n - 1) =~= reindented(front, deep));
        assert(b.take(n - 1) =~= reindented(front, shallow));
        assert((deep - shallow) * (n - 2) + (deep - shallow) == (deep - shallow) * (n - 1))
            by (nonlinear_arith);
    }
}

/// The number of bytes that a span is written as: the indentation, the
/// marker, the bytes of the span and one line terminator; and for every
/// continuation line as many bytes more as it is indented deeper than it
/// stands, or fewer where it is indented less deep.
pub proof fn lemma_built_len(span: Span, indent: nat, marker: Seq<u8>)
    requires
        span.wf(),
    ensures
        span.built(indent, marker).len() == indent + marker.len() + span.verbatim.len() + 1 + (
        indent + 1 - span.strip()) * span.newlines(),
{
    lemma_lines_shape(span);
    lemma_verbatim_of_lines(span);
    lemma_terminated_last(reindented(span.lines(), span.strip()));
    lemma_reindented_len(span.lines(), indent + 1, span.strip());
}

} // verus!
