//! Byte-level vocabulary for lines: splitting on the line terminator, joining
//! again, and indenting with tabs.
//!
//! Everything here is specification. The codec and the value tree state their
//! contracts in these terms.

use vstd::prelude::*;

verus! {

/// The line terminator.
pub const NEWLINE: u8 = 0x0A;

/// The indentation character.
pub const TAB: u8 = 0x09;

/// `n` tab characters.
pub open spec fn tabs(n: nat) -> Seq<u8> {
    Seq::new(n, |i: int| TAB)
}

/// Index of the first line terminator in `b`, or `b.len()` when there is none.
pub open spec fn first_newline(b: Seq<u8>) -> int
    decreases b.len(),
{
    if b.len() == 0 {
        0
    } else if b[0] == NEWLINE {
        0
    } else {
        1 + first_newline(b.drop_first())
    }
}

/// Number of tabs at the front of `b`.
pub open spec fn leading_tabs(b: Seq<u8>) -> int
    decreases b.len(),
{
    if b.len() == 0 {
        0
    } else if b[0] != TAB {
        0
    } else {
        1 + leading_tabs(b.drop_first())
    }
}

/// Whether `b` starts with `prefix`.
pub open spec fn starts_with(b: Seq<u8>, prefix: Seq<u8>) -> bool {
    prefix.len() <= b.len() && b.take(prefix.len() as int) == prefix
}

/// Whether `b` holds a line terminator.
pub open spec fn has_newline(b: Seq<u8>) -> bool {
    exists|i: int| 0 <= i < b.len() && b[i] == NEWLINE
}

/// Number of line terminators in `b`.
pub open spec fn count_newlines(b: Seq<u8>) -> nat
    decreases b.len(),
{
    if b.len() == 0 {
        0
    } else {
        count_newlines(b.drop_last()) + if b.last() == NEWLINE {
            1nat
        } else {
            0nat
        }
    }
}

/// `b` cut at every line terminator. The terminators themselves are dropped;
/// the result always holds at least one line.
pub open spec fn split_lines(b: Seq<u8>) -> Seq<Seq<u8>>
    decreases b.len(),
{
    let i = first_newline(b);
    if 0 <= i < b.len() {
        seq![b.take(i)] + split_lines(b.skip(i + 1))
    } else {
        seq![b]
    }
}

/// Every line of `lines` followed by a line terminator.
pub open spec fn terminated(lines: Seq<Seq<u8>>) -> Seq<u8>
    decreases lines.len(),
{
    if lines.len() == 0 {
        Seq::empty()
    } else {
        lines[0] + seq![NEWLINE] + terminated(lines.drop_first())
    }
}

/// The lines of `lines` joined by single line terminators.
pub open spec fn joined(lines: Seq<Seq<u8>>) -> Seq<u8> {
    terminated(lines).drop_last()
}

/// Whether the first `depth` bytes of `line` exist and are all tabs.
pub open spec fn starts_with_tabs(line: Seq<u8>, depth: nat) -> bool {
    &&& depth <= line.len()
    &&& forall|j: int| 0 <= j < depth ==> line[j] == TAB
}

/// `lines` with `depth` leading bytes removed from every line but the first.
pub open spec fn dedented(lines: Seq<Seq<u8>>, depth: nat) -> Seq<Seq<u8>> {
    Seq::new(
        lines.len(),
        |i: int|
            if i == 0 {
                lines[i]
            } else {
                lines[i].skip(depth as int)
            },
    )
}

/// `lines` with `depth` tabs put in front of every line but the first.
pub open spec fn reindented(lines: Seq<Seq<u8>>, depth: nat) -> Seq<Seq<u8>> {
    Seq::new(
        lines.len(),
        |i: int|
            if i == 0 {
                lines[i]
            } else {
                tabs(depth) + lines[i]
            },
    )
}

/// The leading tabs of `b` are tabs, as many as `leading_tabs` counts, and
/// the byte behind them is none.
pub proof fn lemma_leading_tabs(b: Seq<u8>)
    ensures
        0 <= leading_tabs(b) <= b.len(),
        b.take(leading_tabs(b)) == tabs(leading_tabs(b) as nat),
        leading_tabs(b) < b.len() ==> b[leading_tabs(b)] != TAB,
    decreases b.len(),
{
    if b.len() > 0 && b[0] == TAB {
        let rest = b.drop_first();
        lemma_leading_tabs(rest);
        let n = leading_tabs(rest);
        assert(rest.take(n) == tabs(n as nat));
        assert forall|j: int| 0 <= j < n + 1 implies b[j] == TAB by {
            if j > 0 {
                assert(b[j] == rest.take(n)[j - 1]);
            }
        }
        assert(b.take(n + 1) =~= tabs((n + 1) as nat));
        if n + 1 < b.len() {
            assert(b[n + 1] == rest[n]);
        }
    } else {
        assert(b.take(0) =~= tabs(0));
    }
}

/// The leading tabs of `b` are the `n` tabs at its front where `n` is in
/// range and the byte behind them, if there is one, is no tab.
pub proof fn lemma_leading_tabs_is(b: Seq<u8>, n: int)
    requires
        0 <= n <= b.len(),
        forall|j: int| 0 <= j < n ==> b[j] == TAB,
        n < b.len() ==> b[n] != TAB,
    ensures
        leading_tabs(b) == n,
        b.take(n) == tabs(n as nat),
    decreases b.len(),
{
    if n > 0 {
        let rest = b.drop_first();
        assert forall|j: int| 0 <= j < n - 1 implies rest[j] == TAB by {
            assert(rest[j] == b[j + 1]);
        }
        lemma_leading_tabs_is(rest, n - 1);
    }
    assert(b.take(n) =~= tabs(n as nat));
}

/// `first_newline` is in range, points at a terminator when it is inside the
/// sequence, and nothing before it is a terminator.
pub proof fn lemma_first_newline(b: Seq<u8>)
    ensures
        0 <= first_newline(b) <= b.len(),
        first_newline(b) < b.len() ==> b[first_newline(b)] == NEWLINE,
        forall|j: int| 0 <= j < first_newline(b) ==> b[j] != NEWLINE,
        first_newline(b) == b.len() <==> !has_newline(b),
    decreases b.len(),
{
    if b.len() == 0 {
    } else if b[0] == NEWLINE {
    } else {
        let rest = b.drop_first();
        lemma_first_newline(rest);
        assert forall|j: int| 0 <= j < first_newline(b) implies b[j] != NEWLINE by {
            if j > 0 {
                assert(b[j] == rest[j - 1]);
            }
        }
        if has_newline(b) {
            let i = choose|i: int| 0 <= i < b.len() && b[i] == NEWLINE;
            assert(rest[i - 1] == NEWLINE);
        }
    }
}

/// The position of the first terminator is the only index that is a
/// terminator with none before it.
pub proof fn lemma_first_newline_is(b: Seq<u8>, i: int)
    requires
        0 <= i <= b.len(),
        i < b.len() ==> b[i] == NEWLINE,
        forall|j: int| 0 <= j < i ==> b[j] != NEWLINE,
    ensures
        first_newline(b) == i,
{
    lemma_first_newline(b);
    let f = first_newline(b);
    if f < i {
        assert(b[f] != NEWLINE);
    } else if i < f {
        assert(b[i] != NEWLINE);
    }
}

/// Counting terminators distributes over concatenation.
pub proof fn lemma_count_concat(a: Seq<u8>, b: Seq<u8>)
    ensures
        count_newlines(a + b) == count_newlines(a) + count_newlines(b),
    decreases b.len(),
{
    if b.len() == 0 {
        assert(a + b =~= a);
    } else {
        lemma_count_concat(a, b.drop_last());
        assert((a + b).drop_last() =~= a + b.drop_last());
    }
}

/// A sequence has no terminator exactly when its count is zero.
pub proof fn lemma_count_zero(b: Seq<u8>)
    ensures
        count_newlines(b) == 0 <==> !has_newline(b),
    decreases b.len(),
{
    if b.len() > 0 {
        let front = b.drop_last();
        lemma_count_zero(front);
        if has_newline(b) {
            let i = choose|i: int| 0 <= i < b.len() && b[i] == NEWLINE;
            if i < b.len() - 1 {
                assert(front[i] == NEWLINE);
            }
        }
        if has_newline(front) {
            let i = choose|i: int| 0 <= i < front.len() && front[i] == NEWLINE;
            assert(b[i] == NEWLINE);
        }
    }
}

/// Splitting yields one line more than there are terminators, and no line
/// holds a terminator.
pub proof fn lemma_split_shape(b: Seq<u8>)
    ensures
        split_lines(b).len() == count_newlines(b) + 1,
        forall|i: int| 0 <= i < split_lines(b).len() ==> !has_newline(#[trigger] split_lines(b)[i]),
    decreases b.len(),
{
    lemma_first_newline(b);
    let i = first_newline(b);
    if i < b.len() {
        let head = b.take(i);
        let rest = b.skip(i + 1);
        lemma_split_shape(rest);
        assert(b =~= head + seq![NEWLINE] + rest);
        lemma_count_concat(head + seq![NEWLINE], rest);
        lemma_count_concat(head, seq![NEWLINE]);
        lemma_count_zero(head);
        assert(count_newlines(seq![NEWLINE]) == 1) by {
            reveal_with_fuel(count_newlines, 2);
            assert(seq![NEWLINE].drop_last() =~= Seq::<u8>::empty());
        }
        assert(!has_newline(head));
        assert forall|k: int| 0 <= k < split_lines(b).len() implies !has_newline(
            #[trigger] split_lines(b)[k],
        ) by {
            if k > 0 {
                assert(split_lines(b)[k] == split_lines(rest)[k - 1]);
            }
        }
    } else {
        lemma_count_zero(b);
    }
}

/// A sequence without a terminator is its own single line.
pub proof fn lemma_split_single(b: Seq<u8>)
    requires
        !has_newline(b),
    ensures
        split_lines(b) == seq![b],
{
    lemma_first_newline(b);
}

/// Joining the lines of `b`, each with its terminator, gives `b` and one
/// terminator more.
pub proof fn lemma_terminated_split(b: Seq<u8>)
    ensures
        terminated(split_lines(b)) == b + seq![NEWLINE],
    decreases b.len(),
{
    lemma_first_newline(b);
    let i = first_newline(b);
    let lines = split_lines(b);
    if i < b.len() {
        let rest = b.skip(i + 1);
        lemma_terminated_split(rest);
        assert(lines.drop_first() =~= split_lines(rest));
        assert(lines[0] == b.take(i));
        assert(b.take(i) + seq![NEWLINE] + (rest + seq![NEWLINE]) =~= b + seq![NEWLINE]);
    } else {
        assert(lines.drop_first() =~= Seq::<Seq<u8>>::empty());
        assert(terminated(lines.drop_first()) =~= Seq::<u8>::empty());
        assert(b + seq![NEWLINE] + Seq::<u8>::empty() =~= b + seq![NEWLINE]);
    }
}

/// Joining the lines of `b` with terminators between them gives `b` back.
pub proof fn lemma_joined_split(b: Seq<u8>)
    ensures
        joined(split_lines(b)) == b,
{
    lemma_terminated_split(b);
    assert((b + seq![NEWLINE]).drop_last() =~= b);
}

/// Splitting is a homomorphism: the lines of `a`, a terminator and `b` are the
/// lines of `a` followed by the lines of `b`.
pub proof fn lemma_split_concat(a: Seq<u8>, b: Seq<u8>)
    ensures
        split_lines(a + seq![NEWLINE] + b) == split_lines(a) + split_lines(b),
    decreases a.len(),
{
    let whole = a + seq![NEWLINE] + b;
    lemma_first_newline(a);
    let i = first_newline(a);
    if i < a.len() {
        let rest = a.skip(i + 1);
        lemma_first_newline_is(whole, i);
        lemma_split_concat(rest, b);
        assert(whole.take(i) =~= a.take(i));
        assert(whole.skip(i + 1) =~= rest + seq![NEWLINE] + b);
        assert(split_lines(whole) =~= split_lines(a) + split_lines(b));
    } else {
        lemma_first_newline_is(whole, a.len() as int);
        assert(whole.take(a.len() as int) =~= a);
        assert(whole.skip(a.len() as int + 1) =~= b);
        assert(split_lines(whole) =~= split_lines(a) + split_lines(b));
    }
}

/// `terminated` distributes over concatenation.
pub proof fn lemma_terminated_concat(a: Seq<Seq<u8>>, b: Seq<Seq<u8>>)
    ensures
        terminated(a + b) == terminated(a) + terminated(b),
    decreases a.len(),
{
    if a.len() == 0 {
        assert(a + b =~= b);
        assert(terminated(a) + terminated(b) =~= terminated(b));
    } else {
        lemma_terminated_concat(a.drop_first(), b);
        assert((a + b).drop_first() =~= a.drop_first() + b);
        assert(terminated(a + b) =~= terminated(a) + terminated(b));
    }
}

/// One more line: the terminated text grows by the line and its terminator.
pub proof fn lemma_terminated_take(lines: Seq<Seq<u8>>, n: int)
    requires
        0 <= n < lines.len(),
    ensures
        terminated(lines.take(n + 1)) == terminated(lines.take(n)) + lines[n] + seq![NEWLINE],
{
    let one = seq![lines[n]];
    lemma_terminated_concat(lines.take(n), one);
    assert(lines.take(n + 1) =~= lines.take(n) + one);
    assert(terminated(one.drop_first()) =~= Seq::<u8>::empty());
    assert(terminated(one) =~= lines[n] + seq![NEWLINE]);
    assert(terminated(lines.take(n)) + (lines[n] + seq![NEWLINE]) =~= terminated(lines.take(n))
        + lines[n] + seq![NEWLINE]);
}

/// Terminated text is never empty when there is a line, and it ends in a
/// terminator.
pub proof fn lemma_terminated_last(lines: Seq<Seq<u8>>)
    requires
        lines.len() > 0,
    ensures
        terminated(lines).len() > 0,
        terminated(lines).last() == NEWLINE,
        terminated(lines) == joined(lines) + seq![NEWLINE],
    decreases lines.len(),
{
    let rest = lines.drop_first();
    if rest.len() > 0 {
        lemma_terminated_last(rest);
    } else {
        assert(terminated(rest) =~= Seq::<u8>::empty());
    }
    assert(terminated(lines) =~= joined(lines) + seq![NEWLINE]);
}

/// Lines that hold no terminator come back unchanged when they are joined
/// and split again.
pub proof fn lemma_split_joined(lines: Seq<Seq<u8>>)
    requires
        lines.len() > 0,
        forall|i: int| 0 <= i < lines.len() ==> !has_newline(#[trigger] lines[i]),
    ensures
        split_lines(joined(lines)) == lines,
    decreases lines.len(),
{
    let rest = lines.drop_first();
    if rest.len() == 0 {
        assert(terminated(rest) =~= Seq::<u8>::empty());
        assert(joined(lines) =~= lines[0]);
        lemma_split_single(lines[0]);
        assert(seq![lines[0]] =~= lines);
    } else {
        assert forall|i: int| 0 <= i < rest.len() implies !has_newline(#[trigger] rest[i]) by {
            assert(rest[i] == lines[i + 1]);
        }
        lemma_split_joined(rest);
        lemma_terminated_last(rest);
        assert(joined(lines) =~= lines[0] + seq![NEWLINE] + joined(rest));
        lemma_split_concat(lines[0], joined(rest));
        lemma_split_single(lines[0]);
        assert(seq![lines[0]] + rest =~= lines);
    }
}

/// Tabs hold no terminator, so a line keeps being free of terminators when
/// tabs are put in front of it or bytes are taken off its front.
pub proof fn lemma_no_newline_kept(line: Seq<u8>, depth: nat)
    requires
        !has_newline(line),
    ensures
        !has_newline(tabs(depth) + line),
        depth <= line.len() ==> !has_newline(line.skip(depth as int)),
{
    let padded = tabs(depth) + line;
    if has_newline(padded) {
        let i = choose|i: int| 0 <= i < padded.len() && padded[i] == NEWLINE;
        assert(i >= depth);
        assert(line[i - depth] == NEWLINE);
    }
    let cut = line.skip(depth as int);
    if depth <= line.len() && has_newline(cut) {
        let i = choose|i: int| 0 <= i < cut.len() && cut[i] == NEWLINE;
        assert(line[i + depth] == NEWLINE);
    }
}

/// Stripping `depth` tabs from lines that start with them and putting them
/// back gives the lines as they were.
pub proof fn lemma_reindented_dedented(raw: Seq<Seq<u8>>, depth: nat)
    requires
        forall|i: int| 1 <= i < raw.len() ==> starts_with_tabs(#[trigger] raw[i], depth),
    ensures
        reindented(dedented(raw, depth), depth) == raw,
{
    let back = reindented(dedented(raw, depth), depth);
    assert forall|i: int| 0 <= i < raw.len() implies back[i] == raw[i] by {
        if i > 0 {
            assert(starts_with_tabs(raw[i], depth));
            assert(tabs(depth) + raw[i].skip(depth as int) =~= raw[i]);
        }
    }
    assert(back =~= raw);
}

/// Putting `depth` tabs in front of lines and stripping them again gives the
/// lines as they were, and every line in between starts with the tabs.
pub proof fn lemma_dedented_reindented(lines: Seq<Seq<u8>>, depth: nat)
    ensures
        dedented(reindented(lines, depth), depth) == lines,
        forall|i: int|
            1 <= i < lines.len() ==> starts_with_tabs(#[trigger] reindented(lines, depth)[i], depth),
{
    let there = reindented(lines, depth);
    let back = dedented(there, depth);
    assert forall|i: int| 0 <= i < lines.len() implies back[i] == lines[i] by {
        if i > 0 {
            assert((tabs(depth) + lines[i]).skip(depth as int) =~= lines[i]);
        }
    }
    assert(back =~= lines);
}

} // verus!
