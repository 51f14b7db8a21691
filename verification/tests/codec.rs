use std::cmp::Ordering;
use tindalwic::{Comment, CommentErr, Encoded, Order, MAX_INDENT, MAX_NEWLINES};

fn visible(string: &str) -> String {
    string.replace("╶─▸", "\t").replace("▁▁▎", "\n")
}

struct Expect(String);

impl Expect {
    fn from(&self, indent: usize, parse: &'static str) -> &Self {
        let parse = visible(parse);
        let vec: Vec<&str> = Encoded::parse(&parse, indent).lines();
        assert_eq!(vec.join("\n"), self.0);
        self
    }

    fn comment(&self, indent: usize, parse: &'static str) -> &Self {
        let parse = visible(parse);
        let vec: Vec<&str> = Comment::parse(&parse, indent).lines();
        assert_eq!(vec.join("\n"), self.0);
        self
    }
}

#[test]
fn encoded_parse() {
    Expect(visible("c")).from(0, "c");

    Expect(visible("a▁▁▎b"))
        .from(0, "a▁▁▎╶─▸b▁▁▎...")
        .from(1, "a▁▁▎╶─▸╶─▸b▁▁▎╶─▸...")
        .from(2, "a▁▁▎╶─▸╶─▸╶─▸b▁▁▎╶─▸╶─▸...");

    Expect(visible("a▁▁▎╶─▸b"))
        .from(0, "a▁▁▎╶─▸╶─▸b▁▁▎...")
        .from(1, "a▁▁▎╶─▸╶─▸╶─▸b▁▁▎╶─▸...");
}

#[test]
fn comments_parse() {
    Expect(visible("c")).comment(0, "c");

    Expect(visible("a▁▁▎b"))
        .comment(0, "a▁▁▎╶─▸b▁▁▎...")
        .comment(1, "a▁▁▎╶─▸╶─▸b▁▁▎╶─▸...")
        .comment(2, "a▁▁▎╶─▸╶─▸╶─▸b▁▁▎╶─▸╶─▸...");

    Expect(visible("a▁▁▎╶─▸b"))
        .comment(0, "a▁▁▎╶─▸╶─▸b▁▁▎...")
        .comment(1, "a▁▁▎╶─▸╶─▸╶─▸b▁▁▎╶─▸...");
}

const ZERO: &str = "#A\n\tB\nX";
const ONE: &str = "\t#A\n\t\tB\nX";
const TWO: &str = "\t\t#A\n\t\t\tB\nX";

fn comment(stream: &str, line: usize, tabs: usize, indent: usize, expect: &str) {
    let lines: Vec<&str> = stream.split('\n').collect();
    let skip: usize = lines[..line].iter().map(|x| x.len()).sum();
    let chop: Vec<&str> = lines[line].splitn(2, '#').collect();
    assert_eq!(tabs, chop[0].len());
    let offset = skip + line + tabs + 1;
    let comment = Comment::parse(&stream[offset..], tabs);
    let mut buffer = String::new();
    comment.build(indent, false, &mut buffer).unwrap();
    assert_eq!(buffer, expect);
}

#[test]
fn comments_0_0() {
    comment(ZERO, 0, 0, 0, &ZERO[..ZERO.len() - 1]);
}

#[test]
fn comments_0_1() {
    comment(ZERO, 0, 0, 1, &ONE[..ONE.len() - 1]);
}

#[test]
fn comments_0_2() {
    comment(ZERO, 0, 0, 2, &TWO[..TWO.len() - 1]);
}

#[test]
fn comments_1_0() {
    comment(ONE, 0, 1, 0, &ZERO[..ZERO.len() - 1]);
}

#[test]
fn comments_1_1() {
    comment(ONE, 0, 1, 1, &ONE[..ONE.len() - 1]);
}

#[test]
fn comments_1_2() {
    comment(ONE, 0, 1, 2, &TWO[..TWO.len() - 1]);
}

#[test]
fn comments_z() {
    comment("Z\n\t\t\t#A\nX", 1, 3, 0, "#A\n");
}

#[test]
fn comments_zz() {
    comment("Z\nZZ\n\t\t#A\nX", 2, 2, 0, "#A\n");
}

#[test]
fn comments_zzz() {
    comment("Z\nZZ\nZZZ\n\t#A\nX", 3, 1, 0, "#A\n");
}

#[test]
fn parse_stops_at_shallow_line() {
    let span = Encoded::parse("A\n\tB\nC", 0);
    assert_eq!(span.verbatim(), "A\n\tB");
    assert_eq!(span.len(), 4);
    assert_eq!(span.lines(), vec!["A", "B"]);
    assert_eq!(span.to_string(), "A\nB");
}

#[test]
fn parse_stops_where_tabs_do_not_fit() {
    // One tab is there, two are asked for.
    let span = Encoded::parse("A\n\tB", 1);
    assert_eq!(span.verbatim(), "A");
    // The terminator is the last byte: no room for a tab behind it.
    let span = Encoded::parse("A\n", 0);
    assert_eq!(span.verbatim(), "A");
    // A line of nothing but the tabs still continues the span.
    let span = Encoded::parse("A\n\t", 0);
    assert_eq!(span.verbatim(), "A\n\t");
    assert_eq!(span.lines(), vec!["A", ""]);
}

#[test]
fn parse_keeps_deeper_tabs_as_content() {
    let span = Encoded::parse("a\n\t\t\tb\n\tc", 0);
    assert_eq!(span.verbatim(), "a\n\t\t\tb\n\tc");
    assert_eq!(span.lines(), vec!["a", "\t\tb", "c"]);
    assert_eq!(span.to_string(), "a\n\t\tb\nc");
}

#[test]
fn parse_of_nothing() {
    let span = Encoded::parse("", 0);
    assert_eq!(span.len(), 0);
    assert_eq!(span.lines(), vec![""]);
    assert_eq!(span.to_string(), "");
    let mut out = String::new();
    span.build(1, "#", &mut out).unwrap();
    assert_eq!(out, "\t#\n");
}

#[test]
fn parse_with_huge_indent() {
    let span = Encoded::parse("a\n\tb", usize::MAX);
    assert_eq!(span.verbatim(), "a");
}

#[test]
fn parse_cuts_between_characters() {
    let span = Encoded::parse("é\n\tü\nß", 0);
    assert_eq!(span.verbatim(), "é\n\tü");
    assert_eq!(span.lines(), vec!["é", "ü"]);
}

#[test]
fn adopt_takes_text_as_content() {
    let span = Encoded::adopt("zero\none\n\ttwo");
    assert_eq!(span.lines(), vec!["zero", "one", "\ttwo"]);
    assert_eq!(span.to_string(), "zero\none\n\ttwo");
    let mut out = String::new();
    span.build(0, "#", &mut out).unwrap();
    assert_eq!(out, "#zero\n\tone\n\t\ttwo\n");
}

#[test]
fn build_appends() {
    let span = Encoded::adopt("x");
    let mut out = String::from("before\n");
    span.build(2, "//", &mut out).unwrap();
    assert_eq!(out, "before\n\t\t//x\n");
}

#[test]
fn build_same_depth_is_verbatim() {
    let source = "\t#one\n\t\ttwo\n\t\t\tthree\n\t\nnext";
    let comment = Comment::octothorpe(source).unwrap();
    assert_eq!(comment.len(), 18);
    let mut out = String::new();
    comment.build(1, false, &mut out).unwrap();
    assert_eq!(out, &source[..21]);
}

#[test]
fn reindent_keeps_lines() {
    let parsed = Comment::parse("a\n\tb\n\t\tc\nrest", 0);
    assert_eq!(parsed.lines(), vec!["a", "b", "\tc"]);
    let mut out = String::new();
    parsed.build(2, false, &mut out).unwrap();
    assert_eq!(out, "\t\t#a\n\t\t\tb\n\t\t\t\tc\n");
    let again = Comment::octothorpe(&out).unwrap();
    assert_eq!(again.lines(), parsed.lines());
    assert_eq!(again.len(), out.len() - 4);
    for line in out[..out.len() - 1].split('\n').skip(1) {
        assert!(line.starts_with("\t\t\t"));
    }
}

#[test]
fn reindent_to_shallower() {
    let parsed = Comment::parse("a\n\t\t\tb", 2);
    let mut out = String::new();
    parsed.build(0, true, &mut out).unwrap();
    assert_eq!(out, "#!a\n\tb\n");
}

#[test]
fn octothorpe_needs_its_marker() {
    assert!(Comment::octothorpe("").is_none());
    assert!(Comment::octothorpe("\t\t").is_none());
    assert!(Comment::octothorpe("x#").is_none());
    assert!(Comment::octothorpe("//x").is_none());
    let comment = Comment::octothorpe("#").unwrap();
    assert_eq!(comment.len(), 0);
    let comment = Comment::octothorpe("\t\t#a\n\t\t\tb\n\t\tc").unwrap();
    assert_eq!(comment.lines(), vec!["a", "b"]);
}

#[test]
fn slash_slash_needs_its_marker() {
    assert!(Comment::slash_slash("").is_none());
    assert!(Comment::slash_slash("/").is_none());
    assert!(Comment::slash_slash("\t/").is_none());
    assert!(Comment::slash_slash("\t/x/").is_none());
    assert!(Comment::slash_slash("#x").is_none());
    let comment = Comment::slash_slash("//").unwrap();
    assert_eq!(comment.len(), 0);
    let comment = Comment::slash_slash("\t//a\n\t\tb\n\tc").unwrap();
    assert_eq!(comment.lines(), vec!["a", "b"]);
    assert_eq!(comment.to_string(), "a\nb");
}

#[test]
fn comment_from_text() {
    let comment = Comment::from("with ~strikethrough~ extension");
    assert_eq!(comment.to_string(), "with ~strikethrough~ extension");
    assert_eq!(comment.len(), 30);
    let comment = Comment::some("zero\none\ntwo").unwrap();
    let expect = ["zero", "one", "two"];
    for (index, line) in comment.gfm.lines().into_iter().enumerate() {
        assert_eq!(line, expect[index]);
    }
}

#[test]
fn indent_ceiling() {
    let comment = Comment::from("x");
    let mut out = String::from("kept");
    assert_eq!(
        comment.build(MAX_INDENT + 1, false, &mut out),
        Err(CommentErr::IndentTooLarge(512))
    );
    assert_eq!(out, "kept");
    assert_eq!(comment.gfm.check(MAX_INDENT + 1), Err(CommentErr::IndentTooLarge(512)));
    assert_eq!(comment.gfm.check(MAX_INDENT), Ok(()));
    let mut out = String::new();
    comment.build(MAX_INDENT, false, &mut out).unwrap();
    assert_eq!(out.len(), 511 + 3);
    assert!(out.ends_with("\t#x\n"));
}

#[test]
fn line_ceiling() {
    let many = "\n".repeat(MAX_NEWLINES + 1);
    let comment = Comment::from(many.as_str());
    let mut out = String::from("kept");
    assert_eq!(comment.build(0, false, &mut out), Err(CommentErr::TooManyLines(16384)));
    assert_eq!(out, "kept");
    let fits = "\n".repeat(MAX_NEWLINES);
    let comment = Comment::from(fits.as_str());
    let mut out = String::new();
    comment.build(0, false, &mut out).unwrap();
    // The marker, the first terminator, then a tab and a terminator a line.
    assert_eq!(out.len(), 2 + 2 * 16383);
}

#[test]
fn indent_is_looked_at_first() {
    let many = "\n".repeat(MAX_NEWLINES + 1);
    let comment = Comment::from(many.as_str());
    let mut out = String::new();
    assert_eq!(comment.build(600, false, &mut out), Err(CommentErr::IndentTooLarge(600)));
}

#[test]
fn ceiling_messages() {
    assert_eq!(
        CommentErr::IndentTooLarge(600).to_string(),
        "Indent (600) must never exceed MAX_INDENT (511)."
    );
    assert_eq!(
        CommentErr::TooManyLines(20000).to_string(),
        "Line count (20000) must never exceed MAX_NEWLINES (16383)."
    );
    assert_eq!(
        CommentErr::TooManyLines(0).to_string(),
        "Line count (0) must never exceed MAX_NEWLINES (16383)."
    );
}

#[test]
fn spans_are_equal_by_their_lines() {
    let shallow = Encoded::parse("a\n\tb", 0);
    let deep = Encoded::parse("a\n\t\t\tb", 2);
    let flat = Encoded::adopt("a\nb");
    assert!(shallow == deep);
    assert!(deep == flat);
    assert!(flat == shallow);
    assert!(shallow == shallow);
    let other = Encoded::adopt("a\nc");
    assert!(shallow != other);
    // Tabs beyond the indentation are content.
    let tabbed = Encoded::parse("a\n\t\tb", 0);
    assert!(tabbed != shallow);
    assert!(tabbed == Encoded::adopt("a\n\tb"));
    assert!(Encoded::adopt("") == Encoded::parse("", 7));
    assert!(Encoded::adopt("x") != Encoded::adopt("x\n"));
}

#[test]
fn spans_are_ordered_like_words() {
    let a = Encoded::adopt("a");
    let ab = Encoded::adopt("ab");
    let b = Encoded::adopt("b");
    assert_eq!(a.order(&ab), Order::Less);
    assert_eq!(ab.order(&a), Order::Greater);
    assert_eq!(ab.order(&b), Order::Less);
    assert_eq!(b.order(&b), Order::Equal);
    assert_eq!(a.partial_cmp(&b), Some(Ordering::Less));
    assert_eq!(b.partial_cmp(&a), Some(Ordering::Greater));
    assert_eq!(a.partial_cmp(&a), Some(Ordering::Equal));
    assert!(a < ab);
    assert!(b > ab);
    assert!(a <= a);
    // Spans that are indented differently are ordered line by line.
    let shallow = Encoded::parse("a\n\tb", 0);
    let deep = Encoded::parse("a\n\t\t\tc", 2);
    assert_eq!(shallow.order(&deep), Order::Less);
    assert_eq!(deep.order(&shallow), Order::Greater);
    let longer = Encoded::parse("a\n\t\t\tb\n\t\t\t", 2);
    assert_eq!(shallow.order(&longer), Order::Less);
    assert_eq!(longer.order(&shallow), Order::Greater);
    let first = Encoded::parse("a!\n\t\tb", 1);
    assert_eq!(shallow.order(&first), Order::Less);
    assert_eq!(Encoded::adopt("").order(&Encoded::adopt("")), Order::Equal);
    // Bytes are compared as unsigned.
    assert_eq!(Encoded::adopt("z").order(&Encoded::adopt("é")), Order::Less);
}

fn written_len(source: &str, parsed_at: usize, indent: usize, marker: &str) -> (usize, usize) {
    let span = Encoded::parse(source, parsed_at);
    let lines = span.lines().len();
    let stands = if lines > 1 { parsed_at as isize + 1 } else { 0 };
    let mut out = String::new();
    span.build(indent, marker, &mut out).unwrap();
    let more = (indent as isize + 1 - stands) * (lines as isize - 1);
    let expected = (indent + marker.len() + span.len() + 1) as isize + more;
    (out.len(), expected as usize)
}

#[test]
fn written_length() {
    assert_eq!(written_len("a\n\t\t\tb\n\t\t\tc", 2, 0, "#"), (9, 9));
    assert_eq!(written_len("a\n\t\t\tb\n\t\t\tc", 2, 2, "#"), (15, 15));
    assert_eq!(written_len("a\n\t\t\tb\n\t\t\tc", 2, 5, "#!"), (25, 25));
    assert_eq!(written_len("a\n\tb\nc", 0, 3, "//"), (13, 13));
    assert_eq!(written_len("single", 4, 7, ""), (14, 14));
    assert_eq!(written_len("", 0, 0, ""), (1, 1));
}
