use tindalwic::{Comment, CommentErr, Dict, File, Key, KeyErr, Keyed, List, Path, PathStep, Text, Value};

fn keyed<'a>(key: &'a str, text: &'a str) -> Keyed<'a> {
    Keyed::from(key, Value::text(text)).unwrap()
}

fn keys_of<'a>(entries: &[Keyed<'a>]) -> Vec<&'a str> {
    entries.iter().map(|keyed| keyed.key.as_str()).collect()
}

#[test]
fn zzz() {
    let mut hi = String::from("hi");
    let mut text = Text::from(&hi[..]);
    text.epilog = Comment::some("comment");
    let mut root = Value::List(List::from(vec![Value::Text(text)]));
    let result = Path::from(&[PathStep::List(0)]).text_mut(&mut root).unwrap();
    result.epilog = Comment::some("changed");
    hi.clear();
}

#[test]
fn text_is_written_under_its_key() {
    let text = Text::from("hello");
    let mut out = String::new();
    text.build(0, Some("greeting"), &mut out).unwrap();
    assert_eq!(out, "<greeting>\n\thello\n");
}

#[test]
fn text_without_key() {
    let text = Text::from("hello").with_epilog("said twice\nand again");
    let mut out = String::new();
    text.build(1, None, &mut out).unwrap();
    assert_eq!(out, "\t<>\n\t\thello\n\t\t#said twice\n\t\t\tand again\n");
}

#[test]
fn text_of_several_lines() {
    let text = Text::from("one\ntwo\n\nfour");
    assert_eq!(text.lines(), vec!["one", "two", "", "four"]);
    assert_eq!(text.to_string(), "one\ntwo\n\nfour");
    let mut out = String::new();
    text.build(0, Some("k"), &mut out).unwrap();
    assert_eq!(out, "<k>\n\tone\n\t\ttwo\n\t\t\n\t\tfour\n");
}

#[test]
fn empty_text_keeps_its_line() {
    let text = Text::from("");
    let mut out = String::new();
    text.build(0, Some("k"), &mut out).unwrap();
    assert_eq!(out, "<k>\n\t\n");
}

#[test]
fn text_round_trip() {
    let document = "<k>\n\tone\n\t\ttwo\n\t#after\n";
    let text = Text::parse(&document[5..], 1);
    assert_eq!(text.content.verbatim(), "one\n\t\ttwo");
    let text = Text { content: text.content, epilog: Comment::octothorpe(&document[15..]) };
    let mut out = String::new();
    text.build(0, Some("k"), &mut out).unwrap();
    assert_eq!(out, document);
}

#[test]
fn list_is_written_in_order() {
    let list = List::from(vec![Value::text("a"), Value::list(), Value::text("b")])
        .with_prolog("intro")
        .with_epilog("outro");
    let mut out = String::new();
    list.build(0, Some("items"), &mut out).unwrap();
    assert_eq!(out, "[items]\n\t#intro\n\t<>\n\t\ta\n\t[]\n\t<>\n\t\tb\n\t#outro\n");
}

#[test]
fn dict_is_written_with_gaps_and_comments() {
    let mut second = keyed("second", "2");
    second.gap = true;
    second.before = Comment::some("about the second");
    let inner = Dict::from(vec![keyed("deep", "x")]);
    let third = Keyed::from("third", Value::Dict(inner)).unwrap();
    let dict = Dict::from(vec![keyed("first", "1"), second, third])
        .with_prolog("top")
        .with_epilog("bottom");
    let mut out = String::new();
    dict.build(0, None, &mut out).unwrap();
    assert_eq!(
        out,
        "{}\n\t#top\n\t<first>\n\t\t1\n\n\t//about the second\n\t<second>\n\t\t2\n\t{third}\n\t\t<deep>\n\t\t\tx\n\t#bottom\n"
    );
}

#[test]
fn value_dispatches_on_its_kind() {
    let mut out = String::new();
    Value::text("t").build(0, Some("a"), &mut out).unwrap();
    Value::list().build(0, Some("b"), &mut out).unwrap();
    Value::dict().build(0, Some("c"), &mut out).unwrap();
    assert_eq!(out, "<a>\n\tt\n[b]\n{c}\n");
}

#[test]
fn file_is_written_from_scratch() {
    let mut file = File::new();
    file.hashbang = Comment::some("/usr/bin/env alacs");
    file.prolog = Comment::some("settings\nof the tool");
    file.push(keyed("name", "value"));
    let mut entry = Keyed::from("list", Value::List(List::from(vec![Value::text("item")]))).unwrap();
    entry.gap = true;
    file.push(entry);
    let mut out = String::from("what was there before");
    file.build(&mut out).unwrap();
    assert_eq!(
        out,
        "#!/usr/bin/env alacs\n#settings\n\tof the tool\n<name>\n\tvalue\n\n[list]\n\t<>\n\t\titem\n"
    );
    assert_eq!(file.len(), 2);
}

#[test]
fn empty_file() {
    let file = File::new();
    let mut out = String::from("x");
    file.build(&mut out).unwrap();
    assert_eq!(out, "");
}

#[test]
fn file_that_cannot_be_written_leaves_the_output() {
    let many = "\n".repeat(16384);
    let mut file = File::new();
    file.push(keyed("fine", "1"));
    file.push(keyed("long", &many));
    let mut out = String::from("kept");
    assert_eq!(file.build(&mut out), Err(CommentErr::TooManyLines(16384)));
    assert_eq!(out, "kept");
    assert_eq!(file.check(), Err(CommentErr::TooManyLines(16384)));
}

fn nested<'a>(depth: usize) -> Value<'a> {
    let mut value = Value::text("deep");
    for _ in 0..depth {
        value = Value::List(List::from(vec![value]));
    }
    value
}

#[test]
fn deepest_value() {
    // The text stands at 510, its content at 511.
    let value = nested(510);
    let mut out = String::new();
    value.build(0, None, &mut out).unwrap();
    let tail = out.len() - 511 - 5;
    assert_eq!(out[tail..].trim_start_matches('\t'), "deep\n");
    assert!(out[..tail].ends_with("\t<>\n"));
}

#[test]
fn too_deep_value() {
    // The text stands at 511, its content would stand at 512.
    let value = nested(511);
    let mut out = String::from("kept");
    assert_eq!(value.build(0, None, &mut out), Err(CommentErr::IndentTooLarge(512)));
    assert_eq!(out, "kept");
    assert_eq!(value.check(1), Err(CommentErr::IndentTooLarge(512)));
    assert_eq!(Value::list().check(512), Err(CommentErr::IndentTooLarge(512)));
    assert_eq!(Value::list().check(511), Ok(()));
}

#[test]
fn first_fault_in_order_of_writing() {
    let many = "\n".repeat(16385);
    let long = "\n".repeat(16384);
    let list = List::from(vec![Value::text("ok"), Value::text(&long), Value::text(&many)]);
    assert_eq!(list.check(0), Err(CommentErr::TooManyLines(16384)));
    let list = List::from(vec![Value::text(&long)]).with_prolog(&many);
    assert_eq!(list.check(0), Err(CommentErr::TooManyLines(16385)));
    let list = List::from(vec![Value::text("ok")]).with_epilog(&many);
    assert_eq!(list.check(0), Err(CommentErr::TooManyLines(16385)));
    let mut entry = keyed("k", &long);
    entry.before = Comment::some(&many);
    let dict = Dict::from(vec![entry]);
    assert_eq!(dict.check(0), Err(CommentErr::TooManyLines(16385)));
    let text = Text::from(long.as_str()).with_epilog(&many);
    assert_eq!(text.check(0), Err(CommentErr::TooManyLines(16384)));
}

#[test]
fn insertion_order_is_kept() {
    let mut dict = Dict::from(Vec::new());
    dict.insert(keyed("charlie", "3"));
    dict.insert(keyed("alpha", "1"));
    dict.insert(keyed("bravo", "2"));
    assert_eq!(keys_of(&dict.vec), vec!["charlie", "alpha", "bravo"]);
    dict.insert(keyed("charlie", "updated"));
    assert_eq!(keys_of(&dict.vec), vec!["charlie", "alpha", "bravo"]);
    assert_eq!(dict.len(), 3);
    match &dict.find("charlie").unwrap().value {
        Value::Text(text) => assert_eq!(text.to_string(), "updated"),
        _ => unreachable!(),
    }
}

#[test]
fn insertion_into_a_file() {
    let mut file = File::new();
    file.insert(keyed("a", "1"));
    file.insert(keyed("b", "2"));
    file.insert(keyed("a", "updated"));
    assert_eq!(keys_of(&file.vec), vec!["a", "b"]);
    assert_eq!(file.position("b"), Some(1));
    assert_eq!(file.position("c"), None);
    let mut out = String::new();
    file.build(&mut out).unwrap();
    assert_eq!(out, "<a>\n\tupdated\n<b>\n\t2\n");
}

#[test]
fn lookup_walks_in_order() {
    let mut dict = Dict::from(vec![keyed("x", "1"), keyed("y", "2")]);
    dict.push(keyed("x", "3"));
    assert_eq!(dict.len(), 3);
    assert_eq!(dict.position("x"), Some(0));
    assert_eq!(dict.position("y"), Some(1));
    assert_eq!(dict.position("z"), None);
    assert_eq!(dict.position(""), None);
    assert!(dict.find("z").is_none());
    match &dict.find("x").unwrap().value {
        Value::Text(text) => assert_eq!(text.to_string(), "1"),
        _ => unreachable!(),
    }
    dict.find_mut("y").unwrap().gap = true;
    assert!(dict.vec[1].gap);
    assert!(dict.find_mut("zz").is_none());
    let mut file = File::new();
    file.push(keyed("k", "v"));
    file.find_mut("k").unwrap().value = Value::list();
    assert!(matches!(file.find("k").unwrap().value, Value::List(_)));
    assert!(file.find("kk").is_none());
    assert!(file.find_mut("kk").is_none());
}

#[test]
fn key_with_line_terminator_is_refused() {
    assert_eq!(Key::new("bad\nkey").err(), Some(KeyErr { at: 3 }));
    assert_eq!(Key::new("\n").err(), Some(KeyErr { at: 0 }));
    assert_eq!(Keyed::from("a\n\nb", Value::list()).err(), Some(KeyErr { at: 1 }));
    assert_eq!(Key::new("good key").unwrap().as_str(), "good key");
    assert_eq!(Key::new("").unwrap().as_str(), "");
    assert_eq!(Key::new("tab\tand\rreturn").unwrap().as_str(), "tab\tand\rreturn");
    assert_eq!(KeyErr { at: 12 }.to_string(), "Key holds a line terminator at byte 12.");
}

#[test]
fn copies_are_equal_in_writing() {
    let mut entry = keyed("k", "v");
    entry.before = Comment::some("c");
    let dict = Dict::from(vec![entry]).with_prolog("p");
    let value = Value::List(List::from(vec![Value::Dict(dict), Value::text("t\nu")]));
    let copy = value.clone();
    let mut one = String::new();
    let mut two = String::new();
    value.build(0, Some("root"), &mut one).unwrap();
    copy.build(0, Some("root"), &mut two).unwrap();
    assert_eq!(one, two);
    assert_eq!(one, "[root]\n\t{}\n\t\t#p\n\t\t//c\n\t\t<k>\n\t\t\tv\n\t<>\n\t\tt\n\t\t\tu\n");
    let mut file = File::new();
    file.push(keyed("a", "1"));
    let twin = file.clone();
    let mut three = String::new();
    twin.build(&mut three).unwrap();
    assert_eq!(three, "<a>\n\t1\n");
}

#[test]
fn conversions() {
    let comment: Comment = "said".into();
    assert_eq!(comment.to_string(), "said");
    let text: Text = "hello\nworld".into();
    assert_eq!(text.lines(), vec!["hello", "world"]);
    let list: List = vec![Value::Text(text), Value::text("x")].into();
    assert_eq!(list.vec.len(), 2);
    assert!(list.prolog.is_none() && list.epilog.is_none());
    let dict: Dict = vec![keyed("a", "1")].into();
    assert_eq!(dict.len(), 1);
    assert!(dict.prolog.is_none() && dict.epilog.is_none());
    let mut out = String::new();
    Value::List(list).build(0, None, &mut out).unwrap();
    Value::Dict(dict).build(0, None, &mut out).unwrap();
    assert_eq!(out, "[]\n\t<>\n\t\thello\n\t\t\tworld\n\t<>\n\t\tx\n{}\n\t<a>\n\t\t1\n");
}
