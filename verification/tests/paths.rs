use tindalwic::{Comment, Dict, Have, Keyed, Kind, List, Path, PathStep, Text, Value};

#[test]
fn path_display() {
    assert_eq!(
        Path::from(&[PathStep::Dict("zero"), PathStep::List(1), PathStep::Dict("two")]).to_string(),
        ".zero[1].two"
    );
}

#[test]
fn resolve_list() {
    let inner = Value::Text(Text::from("hello"));
    let list = Value::List(List::from(vec![inner]));

    let resolved = Path::from(&[PathStep::List(0)]).text(&list).unwrap();
    assert_eq!(resolved.to_string(), "hello");
}

#[test]
fn resolve_failure() {
    let inner = Value::Text(Text::from("hello"));
    let list = Value::List(List::from(vec![inner]));

    Path::from(&[PathStep::List(5)]).value(&list).unwrap_err();
}

fn sample<'a>() -> Value<'a> {
    let inner = List::from(vec![Value::text("zero"), Value::text("one")]);
    let dict = Dict::from(vec![
        Keyed::from("name", Value::text("tool")).unwrap(),
        Keyed::from("items", Value::List(inner)).unwrap(),
    ]);
    Value::Dict(dict)
}

fn written(value: &Value) -> String {
    let mut out = String::new();
    value.build(0, None, &mut out).unwrap();
    out
}

#[test]
fn steps_from_values() {
    assert_eq!(PathStep::from(3), PathStep::List(3));
    assert_eq!(PathStep::from("key"), PathStep::Dict("key"));
    let step: PathStep = 7.into();
    assert_eq!(step, PathStep::List(7));
    let path = Path::from(&[PathStep::List(0), PathStep::List(18446744073709551615)]);
    assert_eq!(path.to_string(), "[0][18446744073709551615]");
    assert_eq!(path.steps().len(), 2);
    assert_eq!(Path::from(&[PathStep::Dict("")]).to_string(), ".");
    assert_eq!(Path::from(&[PathStep::List(10), PathStep::List(109)]).to_string(), "[10][109]");
}

#[test]
fn resolve_through_dict_and_list() {
    let root = sample();
    let path = Path::from(&[PathStep::Dict("items"), PathStep::List(1)]);
    assert_eq!(path.text(&root).unwrap().to_string(), "one");
    assert!(matches!(path.value(&root).unwrap(), Value::Text(_)));
    let path = Path::from(&[PathStep::Dict("items")]);
    assert_eq!(path.list(&root).unwrap().vec.len(), 2);
    let root = Value::List(List::from(vec![sample()]));
    let path = Path::from(&[PathStep::List(0)]);
    assert_eq!(path.dict(&root).unwrap().len(), 2);
}

#[test]
fn index_beyond_the_list_is_a_missing_entry() {
    let list = Value::List(List::from(vec![Value::text("hello")]));
    let err = Path::from(&[PathStep::List(5)]).value(&list).unwrap_err();
    assert_eq!(err.have(), Have::ListTooShort);
    assert_eq!(err.good().len(), 0);
    assert_eq!(err.fail(), Some(&PathStep::List(5)));
    assert_eq!(err.to_string(), "Path `` leads to List too short, can't apply step `[5]`.");
    let err = Path::from(&[PathStep::List(1)]).value(&list).unwrap_err();
    assert_eq!(err.have(), Have::ListTooShort);
}

#[test]
fn key_into_a_text_is_a_mismatch() {
    let text = Value::text("hello");
    let err = Path::from(&[PathStep::Dict("x")]).value(&text).unwrap_err();
    assert_eq!(err.have(), Have::Mismatch(Kind::Text));
    assert_eq!(err.good().len(), 0);
    assert_eq!(err.fail(), Some(&PathStep::Dict("x")));
    assert_eq!(err.to_string(), "Path `` leads to Text, can't apply step `.x`.");
}

#[test]
fn errors_keep_the_steps_that_were_taken() {
    let root = sample();
    let path = Path::from(&[PathStep::Dict("items"), PathStep::List(0), PathStep::List(2)]);
    let err = path.value(&root).unwrap_err();
    assert_eq!(err.good(), &[PathStep::Dict("items"), PathStep::List(0)]);
    assert_eq!(err.have(), Have::Mismatch(Kind::Text));
    assert_eq!(err.fail(), Some(&PathStep::List(2)));
    assert_eq!(
        err.to_string(),
        "Path `.items[0]` leads to Text, can't apply step `[2]`."
    );

    let path = Path::from(&[PathStep::Dict("items"), PathStep::Dict("zero")]);
    let err = path.value(&root).unwrap_err();
    assert_eq!(err.good(), &[PathStep::Dict("items")]);
    assert_eq!(err.have(), Have::Mismatch(Kind::List));
    assert_eq!(err.to_string(), "Path `.items` leads to List, can't apply step `.zero`.");

    let path = Path::from(&[PathStep::List(0)]);
    let err = path.value(&root).unwrap_err();
    assert_eq!(err.have(), Have::Mismatch(Kind::Dict));
    assert_eq!(err.to_string(), "Path `` leads to Dict, can't apply step `[0]`.");

    let path = Path::from(&[PathStep::Dict("items"), PathStep::List(2)]);
    let err = path.value(&root).unwrap_err();
    assert_eq!(err.have(), Have::ListTooShort);
    assert_eq!(err.good(), &[PathStep::Dict("items")]);

    let path = Path::from(&[PathStep::Dict("missing"), PathStep::List(0)]);
    let err = path.value(&root).unwrap_err();
    assert_eq!(err.have(), Have::DictMissingKey);
    assert_eq!(err.good().len(), 0);
    assert_eq!(
        err.to_string(),
        "Path `` leads to Dict missing key, can't apply step `.missing`."
    );
}

#[test]
fn value_of_another_kind_than_asked_for() {
    let root = sample();
    let path = Path::from(&[PathStep::Dict("items")]);
    let err = path.text(&root).unwrap_err();
    assert_eq!(err.have(), Have::Wrong { found: Kind::List, wanted: Kind::Text });
    assert_eq!(err.good(), &[PathStep::Dict("items")]);
    assert_eq!(err.fail(), None);
    assert_eq!(err.to_string(), "Path `.items` leads to List (not Text).");
    let err = path.dict(&root).unwrap_err();
    assert_eq!(err.to_string(), "Path `.items` leads to List (not Dict).");
    let path = Path::from(&[PathStep::Dict("name")]);
    let err = path.list(&root).unwrap_err();
    assert_eq!(err.to_string(), "Path `.name` leads to Text (not List).");
    let err = path.dict(&root).unwrap_err();
    assert_eq!(err.have(), Have::Wrong { found: Kind::Text, wanted: Kind::Dict });
    let root = Value::List(List::from(vec![sample()]));
    let path = Path::from(&[PathStep::List(0)]);
    assert_eq!(path.text(&root).unwrap_err().to_string(), "Path `[0]` leads to Dict (not Text).");
    assert_eq!(path.list(&root).unwrap_err().to_string(), "Path `[0]` leads to Dict (not List).");
    // A step that fails is told as such, whatever was asked for.
    let path = Path::from(&[PathStep::List(1)]);
    assert_eq!(path.text(&root).unwrap_err().have(), Have::ListTooShort);
}

#[test]
fn edit_in_place() {
    let mut root = sample();
    let before = written(&root);
    assert_eq!(before, "{}\n\t<name>\n\t\ttool\n\t[items]\n\t\t<>\n\t\t\tzero\n\t\t<>\n\t\t\tone\n");
    let path = Path::from(&[PathStep::Dict("items"), PathStep::List(0)]);
    *path.value_mut(&mut root).unwrap() = Value::text("changed");
    assert_eq!(
        written(&root),
        "{}\n\t<name>\n\t\ttool\n\t[items]\n\t\t<>\n\t\t\tchanged\n\t\t<>\n\t\t\tone\n"
    );
    path.text_mut(&mut root).unwrap().epilog = Comment::some("why");
    Path::from(&[PathStep::Dict("items")]).list_mut(&mut root).unwrap().vec.pop();
    assert_eq!(
        written(&root),
        "{}\n\t<name>\n\t\ttool\n\t[items]\n\t\t<>\n\t\t\tchanged\n\t\t\t#why\n"
    );
    let mut outer = Value::List(List::from(vec![root]));
    let path = Path::from(&[PathStep::List(0)]);
    path.dict_mut(&mut outer).unwrap().insert(Keyed::from("name", Value::list()).unwrap());
    assert_eq!(
        written(&outer),
        "[]\n\t{}\n\t\t[name]\n\t\t[items]\n\t\t\t<>\n\t\t\t\tchanged\n\t\t\t\t#why\n"
    );
}

#[test]
fn edit_that_changes_nothing() {
    let mut root = sample();
    let before = written(&root);
    let path = Path::from(&[PathStep::Dict("items"), PathStep::List(1)]);
    let read = path.value(&root).unwrap().clone();
    *path.value_mut(&mut root).unwrap() = read;
    assert_eq!(written(&root), before);
    let path = Path::from(&[PathStep::Dict("items")]);
    let read = path.list(&root).unwrap().clone();
    *path.list_mut(&mut root).unwrap() = read;
    assert_eq!(written(&root), before);
}

#[test]
fn failed_mutable_resolution_changes_nothing() {
    let mut root = sample();
    let before = written(&root);
    let path = Path::from(&[PathStep::Dict("items"), PathStep::List(9)]);
    assert_eq!(path.value_mut(&mut root).unwrap_err().have(), Have::ListTooShort);
    assert_eq!(path.text_mut(&mut root).unwrap_err().have(), Have::ListTooShort);
    let path = Path::from(&[PathStep::Dict("items")]);
    let err = path.text_mut(&mut root).unwrap_err();
    assert_eq!(err.have(), Have::Wrong { found: Kind::List, wanted: Kind::Text });
    let err = path.dict_mut(&mut root).unwrap_err();
    assert_eq!(err.have(), Have::Wrong { found: Kind::List, wanted: Kind::Dict });
    let path = Path::from(&[PathStep::Dict("name")]);
    let err = path.list_mut(&mut root).unwrap_err();
    assert_eq!(err.have(), Have::Wrong { found: Kind::Text, wanted: Kind::List });
    let path = Path::from(&[PathStep::Dict("name"), PathStep::Dict("x")]);
    assert_eq!(path.value_mut(&mut root).unwrap_err().have(), Have::Mismatch(Kind::Text));
    let path = Path::from(&[PathStep::List(0)]);
    assert_eq!(path.value_mut(&mut root).unwrap_err().have(), Have::Mismatch(Kind::Dict));
    let path = Path::from(&[PathStep::Dict("items"), PathStep::Dict("x")]);
    assert_eq!(path.value_mut(&mut root).unwrap_err().have(), Have::Mismatch(Kind::List));
    let path = Path::from(&[PathStep::Dict("nope")]);
    assert_eq!(path.value_mut(&mut root).unwrap_err().have(), Have::DictMissingKey);
    assert_eq!(written(&root), before);
}
