use decsync::order::{path_precedes, text_precedes};
use decsync::time::current_date_time;
use decsync::{DecSyncError, Entry, EntryWithPath, StoredEntry, Value};

fn text(s: &str) -> Value {
    Value::Text(s.to_owned())
}

fn json(s: &str) -> Value {
    Value::parse(s).unwrap()
}

fn compact(value: &Value) -> &str {
    match value {
        Value::Other(json) => json.as_str(),
        _ => panic!("no number, array or object"),
    }
}

#[test]
fn entry_is_constructed() {
    let now = current_date_time();
    let entry = Entry::new(now, text("some_key"), json("{\"some\": \"value\"}"));

    assert_eq!(entry.key, text("some_key"));
}

#[test]
fn to_json() {
    let now = current_date_time();
    let entry = Entry::new(now, text("some_key"), json("{\"some\": \"value\"}"));

    let json: serde_json::Value = serde_json::from_str(compact(&entry.to_json())).unwrap();
    assert_eq!(json.get(1).unwrap(), &serde_json::Value::from("some_key"));
}

#[test]
fn entry_from_json() {
    let serialized_entry = "[\"kekw\", \"some_key\", 2]".to_owned();

    let entry = Entry::try_from(serialized_entry).unwrap();

    assert_eq!(entry.key, text("some_key"));
}

#[test]
fn entry_with_path_from_json() {
    let serialized_entry = "[[\"/usr/share\"], \"kekw\", \"some_key\", 2]".to_owned();

    let entry = EntryWithPath::try_from(serialized_entry).unwrap();

    assert_eq!(entry.path, vec!["/usr/share"]);
    assert_eq!(entry.entry.key, text("some_key"));
}

#[test]
fn datetime_is_fixed_width_utc() {
    let datetime = current_date_time();
    assert_eq!(datetime.len(), 19);
    assert!(chrono::NaiveDateTime::parse_from_str(&datetime, "%Y-%m-%dT%H:%M:%S").is_ok());
}

#[test]
fn an_entry_is_written_as_a_compact_array() {
    let entry = Entry::new(
        "2020-07-17T12:30:00".to_owned(),
        text("a \"key\"\n"),
        json("{ \"b\" : [1, 2.50, null], \"a\": \"x\" }"),
    );
    assert_eq!(
        entry.to_line(),
        "[\"2020-07-17T12:30:00\",\"a \\\"key\\\"\\n\",{\"a\":\"x\",\"b\":[1,2.5,null]}]"
    );
    let entry = EntryWithPath::new(
        vec!["feeds".to_owned(), "names".to_owned()],
        "2020-07-17T12:30:00".to_owned(),
        Value::Null,
        Value::Bool(false),
    );
    assert_eq!(
        entry.to_line(),
        "[[\"feeds\",\"names\"],\"2020-07-17T12:30:00\",null,false]"
    );
}

#[test]
fn an_entry_is_read_back_from_its_line() {
    let entry = EntryWithPath::new(
        vec!["p\r\n".to_owned(), "\u{1f600}".to_owned()],
        "2020-07-17T12:30:00".to_owned(),
        json("[1, {\"z\": -0.0, \"y\": 1e300}]"),
        json("18446744073709551615"),
    );
    let read = EntryWithPath::try_from(entry.to_line()).unwrap();
    assert_eq!(read.path, entry.path);
    assert_eq!(read.entry.datetime, entry.entry.datetime);
    assert_eq!(read.entry.key, entry.entry.key);
    assert_eq!(read.entry.value, entry.entry.value);
    assert_eq!(read.to_line(), entry.to_line());
    assert!(read.same_slot(&entry));

    assert_eq!(entry.to_json(), json(&entry.to_line()));
    assert_eq!(compact(&entry.to_json()), entry.to_line());

    let bare = Entry::try_from(entry.entry.to_line()).unwrap();
    assert_eq!(bare.to_json(), json(&bare.to_line()));
    assert_eq!(bare.to_line(), entry.entry.to_line());
}

#[test]
fn malformed_lines_are_invalid_entries() {
    for line in ["", "{}", "[1, 2, 3]", "[\"d\", 1]", "[\"d\", 1, 2, 3]", "[\"d\", 1, 2"] {
        assert!(matches!(
            Entry::try_from(line.to_owned()),
            Err(DecSyncError::InvalidEntry(_))
        ));
    }
    for line in ["", "[[], \"d\", 1]", "[[1], \"d\", 1, 2]", "[\"p\", \"d\", 1, 2]"] {
        assert!(matches!(
            EntryWithPath::try_from(line.to_owned()),
            Err(DecSyncError::InvalidEntry(_))
        ));
    }
}

#[test]
fn values_are_told_apart_as_json_values_are() {
    let texts = [
        "null", "true", "false", "\"\"", "\"null\"", "0", "0.0", "-0.0", "1", "1.0", "-1", "[]",
        "[0.0]", "[-0.0]", "[-0.0,\"-0.0\"]", "[0.0,\"-0.0\"]", "[0.0,\"0.0\"]", "{}",
        "{\"a\":-0.0}", "{\"a\":0.0}", "{\"b\":1,\"a\":2}", "{\"a\":2,\"b\":1}", "[\"\\\"-0.0\"]",
        "[\"\\\"0.0\"]", "10.0", "-10.0", "1e1",
    ];
    for a in texts {
        for b in texts {
            let x: serde_json::Value = serde_json::from_str(a).unwrap();
            let y: serde_json::Value = serde_json::from_str(b).unwrap();
            assert_eq!(json(a) == json(b), x == y, "{} and {}", a, b);
        }
    }
}

#[test]
fn values_that_are_no_json_are_refused() {
    assert!(Value::parse("").is_err());
    assert!(Value::parse("{\"a\":}").is_err());
    assert_eq!(json(" \"x\" ").as_str(), Some("x"));
    assert_eq!(json("[\"x\"]").as_str(), None);
    assert_eq!(json("true"), Value::Bool(true));
    assert_eq!(json("null"), Value::Null);
    assert!(json("null").is_readable() && json("[1,{}]").is_readable());
}

#[test]
fn stored_entry_is_constructed() {
    let stored = StoredEntry::new(vec!["feeds".to_owned()], text("u1"));
    assert_eq!(stored.path, vec!["feeds".to_owned()]);
    assert_eq!(stored.key, text("u1"));
}

#[test]
fn values_that_nest_too_deeply_are_not_read_back() {
    let nested = |depth: usize| format!("{}{}", "[".repeat(depth), "]".repeat(depth));
    assert!(Value::parse(&nested(128)).is_err());
    let mut value = Value::array(vec![]);
    for depth in 1..=300 {
        let entry = Entry::new("d".to_owned(), text("k"), value.clone());
        assert_eq!(entry.to_line(), format!("[\"d\",\"k\",{}]", nested(depth)));
        assert_eq!(Entry::try_from(entry.to_line()).is_ok(), depth <= 126);
        assert_eq!(value.is_readable(), depth <= 126);
        assert_eq!(Value::parse(compact(&value)).ok(), (depth <= 127).then_some(value.clone()));
        let outer = Value::array(vec![value.clone()]);
        assert!(value == value.clone() && value != outer);
        value = outer;
    }
}

#[test]
fn brackets_in_strings_do_not_nest() {
    let brackets = text(&"[{\\\"[".repeat(200));
    let value = Value::array(vec![Value::object(vec![("[\"[".repeat(200), brackets)])]);
    assert!(value.is_readable());
    assert_eq!(Value::parse(compact(&value)).unwrap(), value);
    let entry = Entry::new("d".to_owned(), value.clone(), value.clone());
    assert_eq!(Entry::try_from(entry.to_line()).unwrap().value, value);
}

#[test]
fn arrays_and_objects_are_built_of_values() {
    let array = Value::array(vec![Value::Null, Value::Bool(true), text("\"x\""), json("-1.5")]);
    assert_eq!(array, json("[null, true, \"\\\"x\\\"\", -1.5]"));
    let field = |name: &str, value: Value| (name.to_owned(), value);
    let object = Value::object(vec![
        field("b", array),
        field("a", Value::Null),
        field("a", json("{}")),
    ]);
    assert_eq!(object, json("{\"a\": {}, \"b\": [null, true, \"\\\"x\\\"\", -1.5]}"));
    assert_eq!(Value::object(vec![]), json("{}"));
}

#[test]
fn datetimes_are_ordered_as_texts() {
    let ordered = ["", "2019-12-31T23:59:59", "2020-01-01T00:00:00", "2020-01-01T00:00:01", "\u{e9}"];
    for (i, a) in ordered.iter().enumerate() {
        for (j, b) in ordered.iter().enumerate() {
            assert_eq!(text_precedes(&a.to_string(), &b.to_string()), i < j);
        }
    }
}

#[test]
fn paths_are_ordered_component_by_component() {
    let owned = |p: &[&str]| p.iter().map(|s| s.to_string()).collect::<Vec<String>>();
    let ordered = [owned(&[]), owned(&["a"]), owned(&["a", "b"]), owned(&["aa"]), owned(&["b"])];
    for (i, a) in ordered.iter().enumerate() {
        for (j, b) in ordered.iter().enumerate() {
            assert_eq!(path_precedes(a, b), i < j);
            assert_eq!(a < b, i < j);
        }
    }
}
