//! Strings seen as UTF-8 bytes.
//!
//! The codec scans and cuts text by byte offset, while `str` and `String` are
//! specified by their characters. This module bridges the two: where a byte
//! offset is a character boundary, how to cut a `str` there, and what the
//! bytes of a `String` are after text is appended to it.

use crate::lines::{tabs, NEWLINE, TAB};
use vstd::prelude::*;
use vstd::string::StringExecFns;
use vstd::string::StringSliceAdditionalSpecFns;
use vstd::utf8::*;

verus! {

/// The UTF-8 bytes of a sequence of characters.
pub open spec fn utf8(chars: Seq<char>) -> Seq<u8> {
    encode_utf8(chars)
}

/// Encoding distributes over concatenation.
pub proof fn lemma_utf8_concat(a: Seq<char>, b: Seq<char>)
    ensures
        utf8(a + b) == utf8(a) + utf8(b),
    decreases a.len(),
{
    if a.len() == 0 {
        assert(a + b =~= b);
        assert(utf8(a) + utf8(b) =~= utf8(b));
    } else {
        lemma_utf8_concat(a.drop_first(), b);
        assert((a + b).drop_first() =~= a.drop_first() + b);
        assert(utf8(a + b) =~= utf8(a) + utf8(b));
    }
}

/// Two character sequences with the same encoding are the same.
pub proof fn lemma_utf8_injective(a: Seq<char>, b: Seq<char>)
    requires
        utf8(a) == utf8(b),
    ensures
        a == b,
{
    encode_utf8_decode_utf8(a);
    encode_utf8_decode_utf8(b);
}

/// The encoding of a single ASCII character is the one byte of its code.
pub proof fn lemma_utf8_ascii(c: char)
    requires
        c as u32 <= 0x7f,
    ensures
        utf8(seq![c]) == seq![c as u8],
{
    let chars = seq![c];
    assert(is_ascii_chars(chars));
    is_ascii_chars_encode_utf8(chars);
    assert(utf8(chars) =~= seq![c as u8]);
}

/// The encoding of ASCII text is the text, byte for character.
pub proof fn lemma_utf8_ascii_text(chars: Seq<char>)
    requires
        is_ascii_chars(chars),
    ensures
        utf8(chars) == Seq::new(chars.len(), |i: int| chars[i] as u8),
{
    is_ascii_chars_encode_utf8(chars);
    assert(utf8(chars) =~= Seq::new(chars.len(), |i: int| chars[i] as u8));
}

/// The position after an ASCII byte is a character boundary.
pub proof fn lemma_boundary_after_ascii(b: Seq<u8>, i: int)
    requires
        valid_utf8(b),
        0 <= i < b.len(),
        b[i] <= 0x7f,
    ensures
        is_char_boundary(b, i + 1),
    decreases b.len(),
{
    let width = length_of_first_scalar(b);
    let rest = pop_first_scalar(b);
    assert(valid_utf8(rest));
    if i < width {
        assert(i == 0);
        assert(width == 1);
        assert(is_char_boundary(rest, 0));
    } else {
        assert(rest[i - width] == b[i]);
        lemma_boundary_after_ascii(rest, i - width);
    }
}

/// An offset inside valid UTF-8 is a character boundary when it is the end or
/// the byte there is ASCII.
pub proof fn lemma_boundary_at_ascii(b: Seq<u8>, i: int)
    requires
        valid_utf8(b),
        0 <= i <= b.len(),
        i < b.len() ==> b[i] <= 0x7f,
    ensures
        is_char_boundary(b, i),
{
    if i < b.len() {
        is_char_boundary_iff_not_is_continuation_byte(b, i);
    } else {
        is_char_boundary_start_end_of_seq(b);
    }
}

/// The bytes of `s` from `from` up to `to`, as a `str` of their own.
pub fn slice<'a>(s: &'a str, from: usize, to: usize) -> (r: &'a str)
    requires
        from <= to <= s.spec_bytes().len(),
        is_char_boundary(s.spec_bytes(), from as int),
        is_char_boundary(s.spec_bytes(), to as int),
    ensures
        r.spec_bytes() == s.spec_bytes().subrange(from as int, to as int),
{
    let ghost b = s.spec_bytes();
    proof {
        encode_utf8_valid_utf8(s@);
    }
    let (head, _) = s.split_at(to);
    proof {
        encode_utf8_valid_utf8(head@);
        if from < to {
            is_char_boundary_iff_not_is_continuation_byte(b, from as int);
            is_char_boundary_iff_not_is_continuation_byte(head.spec_bytes(), from as int);
        } else {
            is_char_boundary_start_end_of_seq(head.spec_bytes());
        }
    }
    let (_, r) = head.split_at(from);
    assert(r.spec_bytes() =~= b.subrange(from as int, to as int));
    r
}

/// Whether two strings hold the same text.
pub fn same_text(a: &str, b: &str) -> (r: bool)
    ensures
        r == (a@ == b@),
{
    let x = a.as_bytes();
    let y = b.as_bytes();
    if x.len() != y.len() {
        return false;
    }
    let mut i: usize = 0;
    while i < x.len()
        invariant
            x@ == a.spec_bytes(),
            y@ == b.spec_bytes(),
            x@.len() == y@.len(),
            i <= x@.len(),
            forall|j: int| 0 <= j < i ==> x@[j] == y@[j],
        decreases x@.len() - i,
    {
        if x[i] != y[i] {
            return false;
        }
        i += 1;
    }
    proof {
        assert(x@ =~= y@);
        lemma_utf8_injective(a@, b@);
    }
    true
}

/// Appends `s` to `into`.
pub fn push_str(into: &mut String, s: &str)
    ensures
        final(into)@ == old(into)@ + s@,
        utf8(final(into)@) == utf8(old(into)@) + s.spec_bytes(),
{
    proof {
        lemma_utf8_concat(old(into)@, s@);
    }
    into.append(s);
}

/// Appends one line terminator to `into`.
pub fn push_newline(into: &mut String)
    ensures
        final(into)@ == old(into)@ + seq!['\n'],
        utf8(final(into)@) == utf8(old(into)@) + seq![NEWLINE],
{
    proof {
        reveal_strlit("\n");
        assert("\n"@ =~= seq!['\n']);
        lemma_utf8_ascii('\n');
        lemma_utf8_concat(old(into)@, seq!['\n']);
    }
    into.append("\n");
}

/// Appends `n` tabs to `into`.
pub fn push_tabs(into: &mut String, n: usize)
    ensures
        utf8(final(into)@) == utf8(old(into)@) + tabs(n as nat),
{
    let mut i: usize = 0;
    assert(utf8(into@) + tabs(0) =~= utf8(into@));
    while i < n
        invariant
            i <= n,
            utf8(into@) == utf8(old(into)@) + tabs(i as nat),
        decreases n - i,
    {
        proof {
            reveal_strlit("\t");
            assert("\t"@ =~= seq!['\t']);
            lemma_utf8_ascii('\t');
            lemma_utf8_concat(into@, seq!['\t']);
            assert(tabs(i as nat) + seq![TAB] =~= tabs((i + 1) as nat));
        }
        into.append("\t");
        i += 1;
    }
}

} // verus!
