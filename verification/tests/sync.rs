use decsync::notifier::notification;
use decsync::store::read_entries;
use decsync::{
    DecSyncError, DecSyncInstance, EntryWithPath, FileWrite, Files, Notifier, Pull, StoredEntry, Value,
};
use std::cell::{Cell, RefCell};
use std::rc::Rc;

/// A shared directory, held in memory.
struct Dir {
    files: Files,
    app_ids: Vec<String>,
}

impl Dir {
    fn new(app_ids: &[&str]) -> Dir {
        Dir { files: Files::new(), app_ids: path(app_ids) }
    }

    fn apply(&mut self, writes: Vec<FileWrite>) {
        for write in writes {
            self.files.write(write);
        }
    }

    fn set<T>(&mut self, app: &DecSyncInstance<T>, entries: Vec<EntryWithPath>) {
        let writes = app.set_entries(entries, &self.files);
        self.apply(writes);
    }

    fn set_now<T>(&mut self, app: &DecSyncInstance<T>, at: &[&str], key: Value, value: Value) {
        let writes = app.set_entry(path(at), key, value, &self.files);
        self.apply(writes);
    }

    fn pull<T>(&mut self, app: &mut DecSyncInstance<T>, extra: &T) {
        app.execute_all_new_entries(&self.app_ids, &mut self.files, extra);
    }

    fn init<T>(&mut self, app: &mut DecSyncInstance<T>) {
        app.init_stored_entries(&self.app_ids, &mut self.files);
    }

    fn own<T>(&self, app: &DecSyncInstance<T>, name: &str) -> Option<&String> {
        self.files.read(&below(app.own_v2_dir(), name))
    }

    fn lines<T>(&self, app: &DecSyncInstance<T>, name: &str) -> Vec<serde_json::Value> {
        let content = self.own(app, name).unwrap();
        content.lines().map(|line| serde_json::from_str(line).unwrap()).collect()
    }

    fn sequences<T>(&self, app: &DecSyncInstance<T>) -> serde_json::Value {
        parsed(self.files.read(&app.sequences_file()).unwrap())
    }

    fn local_sequences<T>(&self, app: &DecSyncInstance<T>) -> Option<serde_json::Value> {
        self.files.read(&below(app.local_dir(), "sequences")).map(|text| parsed(text))
    }
}

fn below(mut dir: Vec<String>, name: &str) -> Vec<String> {
    dir.push(name.to_owned());
    dir
}

fn path(components: &[&str]) -> Vec<String> {
    components.iter().map(|s| s.to_string()).collect()
}

fn parsed(text: &str) -> serde_json::Value {
    serde_json::from_str(text).unwrap()
}

fn text(s: &str) -> Value {
    Value::Text(s.to_owned())
}

fn entry(at: &[&str], datetime: &str, key: Value, value: Value) -> EntryWithPath {
    EntryWithPath::new(path(at), datetime.to_owned(), key, value)
}

fn instance(app_id: &str) -> DecSyncInstance<()> {
    DecSyncInstance::<()>::new("/shared".to_owned(), "rss".to_owned(), None, app_id.to_owned())
}

const SUBSCRIPTIONS: [&str; 2] = ["feeds", "subscriptions"];
const NAMES: [&str; 2] = ["feeds", "names"];

#[test]
fn decsync_is_constructed() {
    let decsync_instance = instance("app1");
    assert_eq!(decsync_instance.own_app_id, "app1".to_owned());
    assert_eq!(decsync_instance.own_v2_dir(), path(&["/shared", "rss", "v2", "app1"]));
    assert_eq!(decsync_instance.local_dir(), path(&["/shared", "rss", "local", "app1"]));
}

#[test]
fn set_entry_writes_entry_file_and_sequences() {
    let mut dir = Dir::new(&["app1"]);
    let decsync = instance("app1");

    dir.set_now(
        &decsync,
        &SUBSCRIPTIONS,
        text("https://foo.example.com/rss"),
        Value::Bool(true),
    );

    let lines = dir.lines(&decsync, "b9");
    assert_eq!(lines.len(), 1);
    assert_eq!(lines[0][0], parsed("[\"feeds\", \"subscriptions\"]"));
    assert!(lines[0][1].is_string());
    assert_eq!(lines[0][2], "https://foo.example.com/rss");
    assert_eq!(lines[0][3], true);

    assert_eq!(dir.sequences(&decsync), parsed("{\"b9\": 1}"));
}

#[test]
fn updating_existing_key_replaces_and_bumps_sequence() {
    let mut dir = Dir::new(&["app1"]);
    let decsync = instance("app1");

    dir.set(
        &decsync,
        vec![entry(&SUBSCRIPTIONS, "2020-07-17T12:30:00", text("url"), Value::Bool(true))],
    );
    dir.set(
        &decsync,
        vec![entry(&SUBSCRIPTIONS, "2020-07-17T12:40:00", text("url"), Value::Bool(false))],
    );

    let lines = dir.lines(&decsync, "b9");
    assert_eq!(lines.len(), 1);
    assert_eq!(lines[0][1], "2020-07-17T12:40:00");
    assert_eq!(lines[0][3], false);

    assert_eq!(dir.sequences(&decsync), parsed("{\"b9\": 2}"));
}

#[test]
fn stale_update_is_ignored() {
    let mut dir = Dir::new(&["app1"]);
    let decsync = instance("app1");

    dir.set(
        &decsync,
        vec![entry(&SUBSCRIPTIONS, "2020-07-17T12:40:00", text("url"), Value::Bool(false))],
    );
    dir.set(
        &decsync,
        vec![entry(&SUBSCRIPTIONS, "2020-07-17T12:30:00", text("url"), Value::Bool(true))],
    );

    let lines = dir.lines(&decsync, "b9");
    assert_eq!(lines.len(), 1);
    assert_eq!(lines[0][3], false);
    assert_eq!(dir.sequences(&decsync), parsed("{\"b9\": 1}"));
}

#[test]
fn same_value_is_not_rewritten() {
    let mut dir = Dir::new(&["app1"]);
    let decsync = instance("app1");

    dir.set(
        &decsync,
        vec![entry(&SUBSCRIPTIONS, "2020-07-17T12:30:00", text("url"), Value::Bool(true))],
    );
    dir.set(
        &decsync,
        vec![entry(&SUBSCRIPTIONS, "2020-07-17T12:40:00", text("url"), Value::Bool(true))],
    );

    let lines = dir.lines(&decsync, "b9");
    assert_eq!(lines.len(), 1);
    assert_eq!(lines[0][1], "2020-07-17T12:30:00");
    assert_eq!(dir.sequences(&decsync), parsed("{\"b9\": 1}"));
}

#[test]
fn multiple_entries_same_hash_bump_once() {
    let mut dir = Dir::new(&["app1"]);
    let decsync = instance("app1");

    dir.set(
        &decsync,
        vec![
            entry(&SUBSCRIPTIONS, "2020-07-17T12:30:00", text("a"), Value::Bool(true)),
            entry(&SUBSCRIPTIONS, "2020-07-17T12:31:00", text("b"), Value::Bool(true)),
        ],
    );

    assert_eq!(dir.lines(&decsync, "b9").len(), 2);
    assert_eq!(dir.sequences(&decsync), parsed("{\"b9\": 1}"));
}

#[test]
fn entries_in_different_hashes_bump_separately() {
    let mut dir = Dir::new(&["app1"]);
    let decsync = instance("app1");

    dir.set(
        &decsync,
        vec![
            entry(&SUBSCRIPTIONS, "2020-07-17T12:30:00", text("a"), Value::Bool(true)),
            entry(
                &["entries", "read", "2020", "09", "10"],
                "2020-07-17T12:31:00",
                text("guid"),
                Value::Bool(true),
            ),
        ],
    );

    assert_eq!(dir.sequences(&decsync), parsed("{\"b8\": 1, \"b9\": 1}"));
}

#[test]
fn setting_nothing_writes_nothing() {
    let decsync = instance("app1");
    assert!(decsync.set_entries(vec![], &Files::new()).is_empty());
}

#[test]
fn files_are_written_in_order_before_the_sequences() {
    let decsync = instance("app1");
    let writes = decsync.set_entries(
        vec![
            entry(&SUBSCRIPTIONS, "2020-07-17T12:30:00", text("a"), Value::Bool(true)),
            entry(&["info"], "2020-07-17T12:30:00", text("name"), text("x")),
            entry(
                &["entries", "read", "2020", "08", "23"],
                "2020-07-17T12:31:00",
                text("guid"),
                Value::Bool(true),
            ),
        ],
        &Files::new(),
    );
    let names: Vec<&str> = writes.iter().map(|w| w.path.last().unwrap().as_str()).collect();
    assert_eq!(names, ["07", "b9", "info", "sequences"]);
    assert_eq!(
        writes[1].text,
        "[[\"feeds\",\"subscriptions\"],\"2020-07-17T12:30:00\",\"a\",true]\n"
    );
    assert_eq!(writes[3].text, "{\"07\":1,\"b9\":1,\"info\":1}\n");
}

#[test]
fn other_entries_of_a_file_stay() {
    let mut dir = Dir::new(&["app1"]);
    let decsync = instance("app1");
    dir.set(
        &decsync,
        vec![
            entry(&SUBSCRIPTIONS, "2020-07-17T12:30:00", text("a"), Value::Bool(true)),
            entry(&SUBSCRIPTIONS, "2020-07-17T12:30:00", text("b"), Value::Bool(true)),
        ],
    );
    dir.set(
        &decsync,
        vec![entry(&SUBSCRIPTIONS, "2020-07-17T12:31:00", text("a"), Value::Null)],
    );
    assert_eq!(
        dir.own(&decsync, "b9").unwrap(),
        "[[\"feeds\",\"subscriptions\"],\"2020-07-17T12:30:00\",\"b\",true]\n\
         [[\"feeds\",\"subscriptions\"],\"2020-07-17T12:31:00\",\"a\",null]\n"
    );
}

#[test]
fn malformed_lines_are_passed_over_and_the_newest_line_counts() {
    let mut dir = Dir::new(&["app1"]);
    let decsync = instance("app1");
    let content = "junk\r\n[[\"feeds\",\"subscriptions\"],\"2020-07-17T12:40:00\",\"a\",1]\n\n\
                   [[\"feeds\",\"subscriptions\"],\"2020-07-17T12:30:00\",\"a\",2]";
    dir.apply(vec![FileWrite {
        path: below(decsync.own_v2_dir(), "b9"),
        text: content.to_owned(),
    }]);
    dir.set(
        &decsync,
        vec![entry(&SUBSCRIPTIONS, "2020-07-17T12:35:00", text("a"), Value::Null)],
    );
    assert_eq!(dir.own(&decsync, "b9").unwrap(), content);
    dir.set(
        &decsync,
        vec![entry(&SUBSCRIPTIONS, "2020-07-17T12:45:00", text("a"), Value::Null)],
    );
    assert_eq!(
        dir.own(&decsync, "b9").unwrap(),
        "[[\"feeds\",\"subscriptions\"],\"2020-07-17T12:45:00\",\"a\",null]\n"
    );
}

#[test]
fn execute_all_new_entries_without_other_apps_is_noop() {
    let mut dir = Dir::new(&["app1"]);
    let mut app1 = instance("app1");

    dir.pull(&mut app1, &());

    assert!(dir.local_sequences(&app1).is_none());
    assert!(dir.own(&app1, "sequences").is_none());
}

#[test]
fn execute_all_new_entries_merges_other_apps_entries() {
    let mut dir = Dir::new(&["app1", "app2"]);
    let app1 = instance("app1");
    let mut app2 = instance("app2");

    dir.set_now(&app1, &SUBSCRIPTIONS, text("https://foo.example.com/rss"), Value::Bool(true));

    dir.pull(&mut app2, &());

    let lines = dir.lines(&app2, "b9");
    assert_eq!(lines.len(), 1);
    assert_eq!(lines[0][0], parsed("[\"feeds\", \"subscriptions\"]"));
    assert_eq!(lines[0][2], "https://foo.example.com/rss");
    assert_eq!(lines[0][3], true);

    assert_eq!(dir.local_sequences(&app2).unwrap(), parsed("{\"app1\": {\"b9\": 1}}"));
    assert!(dir.own(&app2, "sequences").is_none());

    dir.pull(&mut app2, &());

    assert_eq!(dir.local_sequences(&app2).unwrap(), parsed("{\"app1\": {\"b9\": 1}}"));
}

#[test]
fn newer_entry_wins_across_apps() {
    let mut dir = Dir::new(&["app1", "app2"]);
    let mut app1 = instance("app1");
    let mut app2 = instance("app2");

    dir.set(
        &app1,
        vec![entry(&SUBSCRIPTIONS, "2020-07-17T12:30:00", text("url"), Value::Bool(true))],
    );
    dir.set(
        &app2,
        vec![entry(&SUBSCRIPTIONS, "2020-07-17T12:40:00", text("url"), Value::Bool(false))],
    );

    dir.pull(&mut app1, &());
    dir.pull(&mut app2, &());

    for instance in [&app1, &app2] {
        let lines = dir.lines(instance, "b9");
        assert_eq!(lines.len(), 1);
        assert_eq!(lines[0][3], false);
    }

    assert_eq!(dir.local_sequences(&app1).unwrap(), parsed("{\"app2\": {\"b9\": 1}}"));
    assert_eq!(dir.local_sequences(&app2).unwrap(), parsed("{\"app1\": {\"b9\": 1}}"));
}

#[test]
fn local_sequences_gate_which_entries_are_merged() {
    let mut dir = Dir::new(&["app1", "app2"]);
    let app1 = instance("app1");
    let mut app2 = instance("app2");

    dir.set(
        &app1,
        vec![
            entry(&SUBSCRIPTIONS, "2020-07-17T12:30:00", text("a"), Value::Bool(true)),
            entry(&SUBSCRIPTIONS, "2020-07-17T12:31:00", text("b"), Value::Bool(true)),
        ],
    );

    dir.pull(&mut app2, &());

    let content = dir.own(&app2, "b9").unwrap().clone();
    assert_eq!(content.lines().count(), 2);

    let remaining = content
        .lines()
        .filter(|line| line.contains("\"b\""))
        .collect::<Vec<_>>()
        .join("\n");
    dir.apply(vec![FileWrite { path: below(app2.own_v2_dir(), "b9"), text: remaining }]);

    dir.pull(&mut app2, &());

    assert_eq!(dir.lines(&app2, "b9").len(), 1);

    dir.set_now(&app1, &SUBSCRIPTIONS, text("c"), Value::Bool(true));

    dir.pull(&mut app2, &());

    let keys: Vec<serde_json::Value> =
        dir.lines(&app2, "b9").iter().map(|line| line[2].clone()).collect();
    assert!(keys.contains(&serde_json::Value::from("a")));
    assert!(keys.contains(&serde_json::Value::from("b")));
    assert!(keys.contains(&serde_json::Value::from("c")));

    assert_eq!(dir.local_sequences(&app2).unwrap(), parsed("{\"app1\": {\"b9\": 2}}"));
}

#[test]
fn listener_receives_new_entries_with_relative_path_and_extra() {
    let mut dir = Dir::new(&["app1", "app2"]);
    let app1 = instance("app1");
    let mut app2 = DecSyncInstance::<i32>::new(
        "/shared".to_owned(),
        "rss".to_owned(),
        None,
        "app2".to_owned(),
    );

    let captured = Rc::new(RefCell::new(Vec::new()));
    let captured_in_listener = captured.clone();
    app2.add_multi_listener(vec!["feeds".to_owned()], move |path, entries, extra| {
        captured_in_listener.borrow_mut().push((
            path,
            entries.iter().map(|entry| entry.key.clone()).collect::<Vec<_>>(),
            *extra,
        ));
    });

    dir.set(
        &app1,
        vec![
            entry(&SUBSCRIPTIONS, "2020-07-17T12:30:00", text("a"), Value::Bool(true)),
            entry(&SUBSCRIPTIONS, "2020-07-17T12:31:00", text("b"), Value::Bool(true)),
        ],
    );

    dir.pull(&mut app2, &7);

    let captured = captured.borrow();
    assert_eq!(captured.len(), 1);
    let (path, keys, extra) = &captured[0];
    assert_eq!(path, &vec!["subscriptions".to_owned()]);
    assert_eq!(keys.len(), 2);
    assert!(keys.contains(&text("a")));
    assert!(keys.contains(&text("b")));
    assert_eq!(*extra, 7);
}

#[test]
fn the_first_listener_whose_subpath_fits_is_told() {
    let mut dir = Dir::new(&["app1", "app2"]);
    let app1 = instance("app1");
    let mut app2 = instance("app2");
    let told = Rc::new(RefCell::new(Vec::new()));
    for name in ["other", "feeds", "feeds", ""] {
        let told = told.clone();
        let number = told.borrow().len();
        assert_eq!(number, 0);
        let subpath = if name.is_empty() { vec![] } else { vec![name.to_owned()] };
        let label = name.to_owned();
        app2.add_listener(subpath, move |path, _, _| {
            told.borrow_mut().push((label.clone(), path));
        });
    }
    dir.set(
        &app1,
        vec![
            entry(&["feeds"], "2020-07-17T12:30:00", text("a"), Value::Null),
            entry(&["zebra", "x"], "2020-07-17T12:30:00", text("a"), Value::Null),
        ],
    );
    dir.pull(&mut app2, &());
    let mut told = told.borrow().clone();
    told.sort();
    assert_eq!(
        told,
        vec![("".to_owned(), path(&["zebra", "x"])), ("feeds".to_owned(), path(&[]))]
    );
}

#[test]
fn failed_listener_entries_are_not_merged_or_acknowledged() {
    let mut dir = Dir::new(&["app1", "app2"]);
    let app1 = instance("app1");
    let mut app2 = instance("app2");

    dir.set(
        &app1,
        vec![
            entry(&SUBSCRIPTIONS, "2020-07-17T12:30:00", text("a"), Value::Bool(true)),
            entry(&SUBSCRIPTIONS, "2020-07-17T12:31:00", text("b"), Value::Bool(true)),
        ],
    );

    let accepted = Rc::new(RefCell::new(vec!["b".to_owned()]));
    let accepted_in_listener = accepted.clone();
    app2.add_listener_with_success(vec!["feeds".to_owned()], move |_, entry, _| {
        accepted_in_listener.borrow().contains(&entry.key.as_str().unwrap().to_owned())
    });

    dir.pull(&mut app2, &());

    let keys: Vec<serde_json::Value> =
        dir.lines(&app2, "b9").iter().map(|line| line[2].clone()).collect();
    assert_eq!(keys, vec![serde_json::Value::from("b")]);
    assert!(dir.local_sequences(&app2).is_none());
    assert_eq!(app2.pending_app_ids(&dir.app_ids, &dir.files), ["app1".to_owned()]);

    *accepted.borrow_mut() = vec!["a".to_owned(), "b".to_owned()];
    dir.pull(&mut app2, &());

    assert_eq!(dir.lines(&app2, "b9").len(), 2);
    assert_eq!(dir.local_sequences(&app2).unwrap(), parsed("{\"app1\": {\"b9\": 1}}"));
}

#[test]
fn failed_multi_listener_entries_are_not_merged() {
    let mut dir = Dir::new(&["app1", "app2"]);
    let app1 = instance("app1");
    let mut app2 = instance("app2");

    dir.set(
        &app1,
        vec![entry(&SUBSCRIPTIONS, "2020-07-17T12:30:00", text("a"), Value::Bool(true))],
    );

    app2.add_multi_listener_with_success(vec!["feeds".to_owned()], |_, _, _| false);

    dir.pull(&mut app2, &());

    assert!(dir.own(&app2, "b9").is_none());
    assert!(dir.local_sequences(&app2).is_none());
}

#[test]
fn a_failure_in_one_file_does_not_stop_the_others() {
    let mut dir = Dir::new(&["app1", "app2"]);
    let app1 = instance("app1");
    let mut app2 = instance("app2");
    dir.set(
        &app1,
        vec![
            entry(&SUBSCRIPTIONS, "2020-07-17T12:30:00", text("a"), Value::Bool(true)),
            entry(&["info"], "2020-07-17T12:30:00", text("name"), text("x")),
        ],
    );
    app2.add_multi_listener_with_success(vec!["feeds".to_owned()], |_, _, _| false);
    dir.pull(&mut app2, &());
    assert_eq!(dir.lines(&app2, "info").len(), 1);
    assert_eq!(dir.local_sequences(&app2).unwrap(), parsed("{\"app1\": {\"info\": 1}}"));
}

#[test]
fn init_stored_entries_merges_without_listeners() {
    let mut dir = Dir::new(&["app1", "app2"]);
    let app1 = instance("app1");
    let mut app2 = instance("app2");

    dir.set(
        &app1,
        vec![entry(&SUBSCRIPTIONS, "2020-07-17T12:30:00", text("a"), Value::Bool(true))],
    );

    let called = Rc::new(Cell::new(false));
    let called_in_listener = called.clone();
    app2.add_listener(vec!["feeds".to_owned()], move |_, _, _| {
        called_in_listener.set(true);
    });

    dir.init(&mut app2);

    assert!(!called.get());
    assert_eq!(dir.lines(&app2, "b9").len(), 1);
}

#[test]
fn execute_stored_entry_retroactively_executes() {
    let mut dir = Dir::new(&["app1", "app2"]);
    let app1 = instance("app1");
    let mut app2 = instance("app2");

    dir.set_now(&app1, &NAMES, text("https://foo.example.com/rss"), text("Foo"));
    dir.init(&mut app2);

    let executed = Rc::new(RefCell::new(None::<Value>));
    let executed_in_listener = executed.clone();
    app2.add_listener(vec!["feeds".to_owned()], move |_, entry, _| {
        *executed_in_listener.borrow_mut() = Some(entry.value.clone());
    });

    let success = app2
        .execute_stored_entry(path(&NAMES), text("https://foo.example.com/rss"), &(), &dir.files)
        .unwrap();
    assert!(success);

    let executed = executed.borrow();
    assert_eq!(*executed, Some(text("Foo")));
}

#[test]
fn a_key_that_is_not_stored_is_not_replayed() {
    let mut dir = Dir::new(&["app1"]);
    let mut app1 = instance("app1");
    dir.set_now(&app1, &NAMES, text("u1"), text("Foo"));
    app1.add_listener_with_success(vec![], |_, _, _| false);
    assert!(app1.execute_stored_entry(path(&NAMES), text("u2"), &(), &dir.files).unwrap());
    assert!(!app1.execute_stored_entry(path(&NAMES), text("u1"), &(), &dir.files).unwrap());
}

#[test]
fn execute_stored_entries_batches_by_path() {
    let mut dir = Dir::new(&["app1", "app2"]);
    let app1 = instance("app1");
    let mut app2 = instance("app2");

    dir.set(
        &app1,
        vec![
            entry(&NAMES, "2020-07-17T12:30:00", text("u1"), text("Feed1")),
            entry(&NAMES, "2020-07-17T12:31:00", text("u2"), text("Feed2")),
        ],
    );
    dir.init(&mut app2);

    let executed = Rc::new(RefCell::new(Vec::new()));
    let executed_in_listener = executed.clone();
    app2.add_listener(vec![], move |path, entry, _| {
        executed_in_listener.borrow_mut().push((path, entry.key.clone()));
    });

    app2.execute_stored_entries(
        vec![
            StoredEntry::new(path(&NAMES), text("u1")),
            StoredEntry::new(path(&NAMES), text("u2")),
        ],
        &(),
        &dir.files,
    )
    .unwrap();

    let executed = executed.borrow();
    assert_eq!(executed.len(), 2);
    assert!(executed.iter().any(|(_, key)| *key == text("u1")));
    assert!(executed.iter().any(|(_, key)| *key == text("u2")));
    assert!(executed.iter().all(|(at, _)| *at == path(&NAMES)));
}

#[test]
fn stored_entries_are_replayed_in_the_order_of_their_paths() {
    let mut dir = Dir::new(&["app1"]);
    let mut app1 = instance("app1");
    dir.set(
        &app1,
        vec![
            entry(&["b"], "2020-07-17T12:30:00", text("u1"), text("1")),
            entry(&["a", "z"], "2020-07-17T12:30:00", text("u2"), text("2")),
            entry(&["a"], "2020-07-17T12:30:00", text("u3"), text("3")),
        ],
    );
    let batches = Rc::new(RefCell::new(Vec::new()));
    let batches_in_listener = batches.clone();
    app1.add_multi_listener_with_success(vec![], move |path, entries, _| {
        batches_in_listener.borrow_mut().push((path, entries.len()));
        entries[0].key != Value::Text("u2".to_owned())
    });
    let success = app1
        .execute_stored_entries(
            vec![
                StoredEntry::new(path(&["b"]), text("u1")),
                StoredEntry::new(path(&["a", "z"]), text("u2")),
                StoredEntry::new(path(&["a"]), text("u3")),
                StoredEntry::new(path(&["a"]), text("u4")),
            ],
            &(),
            &dir.files,
        )
        .unwrap();
    assert!(!success);
    assert_eq!(
        *batches.borrow(),
        vec![(path(&["a"]), 1), (path(&["a", "z"]), 1), (path(&["b"]), 1)]
    );
}

#[test]
fn execute_stored_entries_for_path_prefix_filters_and_limits_keys() {
    let mut dir = Dir::new(&["app1", "app2"]);
    let app1 = instance("app1");
    let mut app2 = instance("app2");

    dir.set(
        &app1,
        vec![
            entry(&NAMES, "2020-07-17T12:30:00", text("u1"), text("Feed1")),
            entry(&NAMES, "2020-07-17T12:31:00", text("u2"), text("Feed2")),
            entry(&["categories", "names"], "2020-07-17T12:32:00", text("c1"), text("Cat1")),
        ],
    );
    dir.init(&mut app2);

    let executed = Rc::new(RefCell::new(Vec::new()));
    let executed_in_listener = executed.clone();
    app2.add_listener(vec![], move |path, entry, _| {
        executed_in_listener.borrow_mut().push((path, entry.value.clone()));
    });

    app2.execute_stored_entries_for_path_prefix(
        vec!["feeds".to_owned()],
        &(),
        Some(&[text("u1")]),
        &dir.files,
    )
    .unwrap();

    let executed = executed.borrow();
    assert_eq!(executed.len(), 1);
    let (at, value) = &executed[0];
    assert_eq!(at, &path(&NAMES));
    assert_eq!(value, &text("Feed1"));
}

#[test]
fn a_prefix_replay_reaches_every_file() {
    let mut dir = Dir::new(&["app1"]);
    let mut app1 = instance("app1");
    dir.set(
        &app1,
        vec![
            entry(&["info"], "2020-07-17T12:30:00", text("name"), text("x")),
            entry(&NAMES, "2020-07-17T12:30:00", text("u1"), text("Feed1")),
            entry(&["categories", "names"], "2020-07-17T12:32:00", text("c1"), text("Cat1")),
        ],
    );
    let count = Rc::new(Cell::new(0));
    let count_in_listener = count.clone();
    app1.add_listener(vec![], move |_, _, _| count_in_listener.set(count_in_listener.get() + 1));
    assert!(app1
        .execute_stored_entries_for_path_prefix(vec![], &(), None, &dir.files)
        .unwrap());
    assert_eq!(count.get(), 3);
}

#[test]
fn maintenance_info_entries_are_not_dispatched() {
    let mut dir = Dir::new(&["app1", "app2"]);
    let app1 = instance("app1");
    let mut app2 = instance("app2");

    dir.set(
        &app1,
        vec![
            entry(&["info"], "2020-07-17T12:30:00", text("last-active-app1"), text("2020-07-17")),
            entry(&["info"], "2020-07-17T12:31:00", text("name"), text("MyCollection")),
        ],
    );
    dir.init(&mut app2);

    let executed = Rc::new(RefCell::new(Vec::new()));
    let executed_in_listener = executed.clone();
    app2.add_listener(vec![], move |_, entry, _| {
        executed_in_listener.borrow_mut().push(entry.key.clone());
    });

    app2.execute_stored_entries_for_path_exact(vec!["info".to_owned()], &(), None, &dir.files)
        .unwrap();

    let executed = executed.borrow();
    assert_eq!(executed.len(), 1);
    assert_eq!(executed[0], text("name"));
}

#[test]
fn only_text_keys_in_the_info_path_are_maintenance() {
    let mut dir = Dir::new(&["app1"]);
    let mut app1 = instance("app1");
    dir.set(
        &app1,
        vec![
            entry(&["info"], "2020-07-17T12:30:00", text("supported-version-app1"), Value::Null),
            entry(&["info"], "2020-07-17T12:30:00", Value::Null, Value::Null),
            entry(&["info", "x"], "2020-07-17T12:30:00", text("last-active-app1"), Value::Null),
        ],
    );
    let executed = Rc::new(RefCell::new(Vec::new()));
    let executed_in_listener = executed.clone();
    app1.add_listener(vec!["info".to_owned()], move |path, entry, _| {
        executed_in_listener.borrow_mut().push((path, entry.key.clone()));
    });
    app1.execute_stored_entries_for_path_prefix(vec![], &(), None, &dir.files).unwrap();
    let executed = executed.borrow();
    assert_eq!(executed.len(), 2);
    assert!(executed.contains(&(path(&[]), Value::Null)));
    assert!(executed.contains(&(path(&["x"]), text("last-active-app1"))));
}

#[test]
fn apps_of_the_same_time_keep_what_they_have() {
    let mut dir = Dir::new(&["app1", "app2"]);
    let mut app1 = instance("app1");
    let app2 = instance("app2");
    dir.set(
        &app1,
        vec![entry(&SUBSCRIPTIONS, "2020-07-17T12:30:00", text("url"), Value::Bool(true))],
    );
    dir.set(
        &app2,
        vec![entry(&SUBSCRIPTIONS, "2020-07-17T12:30:00", text("url"), Value::Bool(false))],
    );
    dir.pull(&mut app1, &());
    assert_eq!(dir.lines(&app1, "b9")[0][3], true);
    assert_eq!(dir.local_sequences(&app1).unwrap(), parsed("{\"app2\": {\"b9\": 1}}"));
}

#[test]
fn pending_apps_are_told_until_a_pull_catches_up() {
    let mut dir = Dir::new(&["tablet", "phone", "laptop", "phone"]);
    let phone = instance("phone");
    let mut laptop = instance("laptop");
    let notifier = Notifier::new("/shared", "rss", None, "laptop");
    assert!(notifier.pending_app_ids(&dir.app_ids, &dir.files).is_empty());

    dir.set_now(&phone, &SUBSCRIPTIONS, text("https://example.com/feed.rss"), Value::Bool(true));
    let pending = notifier.pending_app_ids(&dir.app_ids, &dir.files);
    assert_eq!(pending, ["phone".to_owned()]);
    assert_eq!(laptop.pending_app_ids(&dir.app_ids, &dir.files), pending);

    dir.pull(&mut laptop, &());
    assert!(notifier.pending_app_ids(&dir.app_ids, &dir.files).is_empty());

    dir.set_now(&laptop, &SUBSCRIPTIONS, text("x"), Value::Bool(true));
    assert!(notifier.pending_app_ids(&dir.app_ids, &dir.files).is_empty());
    let other = Notifier::new("/shared", "rss", Some("c"), "phone");
    assert!(other.pending_app_ids(&dir.app_ids, &dir.files).is_empty());
}

#[test]
fn a_file_that_is_not_there_is_passed_over() {
    let mut dir = Dir::new(&["app1", "app2"]);
    let app1 = instance("app1");
    let mut app2 = instance("app2");
    dir.apply(vec![FileWrite { path: app1.sequences_file(), text: "{\"b9\": 1}".to_owned() }]);
    assert!(app2.pending_app_ids(&dir.app_ids, &dir.files).is_empty());
    dir.pull(&mut app2, &());
    assert!(dir.local_sequences(&app2).is_none());
}

#[test]
fn only_news_are_notified() {
    assert_eq!(notification(Ok(path(&["phone"]))), Some(path(&["phone"])));
    assert_eq!(notification(Ok(vec![])), None);
    assert_eq!(notification(Err(DecSyncError::Unknown)), None);
}

#[test]
fn a_pull_can_go_file_by_file() {
    let mut dir = Dir::new(&["app1", "app2"]);
    let app1 = instance("app1");
    let mut app2 = instance("app2");
    dir.set(
        &app1,
        vec![entry(&SUBSCRIPTIONS, "2020-07-17T12:30:00", text("a"), Value::Bool(true))],
    );
    let app_id = "app1".to_owned();
    let mut pull = Pull::start(None);
    let unread = pull.unread(&app_id, dir.files.read(&app1.sequences_file()));
    assert_eq!(unread.len(), 1);
    assert_eq!((unread[0].hash.as_str(), unread[0].sequence), ("b9", 1));
    assert_eq!(app2.unread_files(&pull, &app_id, dir.files.read(&app1.sequences_file())).len(), 1);
    assert!(app1.unread_files(&pull, &app_id, dir.files.read(&app1.sequences_file())).is_empty());
    assert!(app2.execute_new_file(&mut pull, &app_id, &unread[0], None, None, Some(&())).is_none());
    assert!(pull.finish(below(app2.local_dir(), "sequences")).is_none());
    let app_text = dir.own(&app1, "b9");
    let write = app2
        .execute_new_file(&mut pull, &app_id, &unread[0], app_text, None, Some(&()))
        .unwrap();
    assert_eq!(write.path, below(app2.own_v2_dir(), "b9"));
    assert_eq!(Some(&write.text), app_text);
    let done = pull.finish(below(app2.local_dir(), "sequences")).unwrap();
    assert_eq!(done.text, "{\"app1\":{\"b9\":1}}\n");
    assert!(pull.unread(&app_id, dir.files.read(&app1.sequences_file())).is_empty());
}

#[test]
fn bringing_the_same_again_changes_nothing() {
    let mut dir = Dir::new(&["app1"]);
    let app1 = instance("app1");
    let entries = || {
        vec![
            entry(&SUBSCRIPTIONS, "2020-07-17T12:30:00", text("a"), Value::Bool(true)),
            entry(&SUBSCRIPTIONS, "2020-07-17T12:31:00", text("b"), Value::Bool(true)),
        ]
    };
    dir.set(&app1, entries());
    let before = dir.own(&app1, "b9").unwrap().clone();
    let writes = app1.set_entries(entries(), &dir.files);
    assert_eq!(writes.len(), 1);
    assert_eq!(writes[0].text, "{\"b9\":1}\n");
    dir.apply(writes);
    assert_eq!(dir.own(&app1, "b9").unwrap(), &before);
}

#[test]
fn of_one_batch_the_newest_entry_counts() {
    let mut dir = Dir::new(&["app1", "app2"]);
    let app1 = instance("app1");
    let mut app2 = instance("app2");
    let number = |s: &str| Value::parse(s).unwrap();
    dir.set(
        &app1,
        vec![
            entry(&["a"], "2020-07-17T12:40:00", text("k"), number("1")),
            entry(&["a"], "2020-07-17T12:30:00", text("k"), number("2")),
        ],
    );
    let stored = read_entries(dir.own(&app1, "61"));
    assert_eq!(stored.len(), 1);
    assert_eq!(stored[0].entry.datetime, "2020-07-17T12:40:00");
    assert_eq!(stored[0].entry.value, number("1"));
    assert_eq!(dir.sequences(&app1), parsed("{\"61\": 1}"));

    dir.pull(&mut app2, &());
    assert_eq!(
        dir.own(&app2, "61").unwrap(),
        "[[\"a\"],\"2020-07-17T12:40:00\",\"k\",1]\n"
    );

    dir.set(&app1, vec![entry(&["a"], "2020-07-17T12:35:00", text("k"), number("3"))]);
    assert_eq!(dir.sequences(&app1), parsed("{\"61\": 1}"));
}

#[test]
fn of_lines_of_the_same_time_the_last_counts() {
    let lines = "[[\"a\"],\"2020\",\"k\",1]\n[[\"a\"],\"2020\",\"k\",2]\n[[\"a\"],\"2019\",\"k\",3]\n";
    let stored = read_entries(Some(&lines.to_owned()));
    assert_eq!(stored.len(), 1);
    assert_eq!(stored[0].entry.value, Value::parse("2").unwrap());
}

#[test]
fn keys_are_compared_as_json_values() {
    let mut dir = Dir::new(&["app1"]);
    let app1 = instance("app1");
    let key = |s: &str| Value::parse(s).unwrap();
    dir.set(
        &app1,
        vec![entry(&["n"], "2020-07-17T12:30:00", key("{\"b\":1,\"a\":-0.0}"), Value::Null)],
    );
    dir.set(
        &app1,
        vec![entry(&["n"], "2020-07-17T12:31:00", key("{\"a\":0.0,\"b\":1}"), Value::Bool(true))],
    );
    let hash = decsync::hash::path_to_hash(path(&["n"]));
    assert_eq!(
        dir.own(&app1, &hash).unwrap(),
        "[[\"n\"],\"2020-07-17T12:31:00\",{\"a\":0.0,\"b\":1},true]\n"
    );
}

#[test]
fn of_several_apps_the_newest_entry_is_taken_over() {
    let mut dir = Dir::new(&["app1", "app2", "app3"]);
    let app1 = instance("app1");
    let app2 = instance("app2");
    let mut app3 = instance("app3");
    for (app, datetime, value) in [
        (&app1, "2020-07-17T12:40:00", "new"),
        (&app2, "2020-07-17T12:30:00", "old"),
        (&app3, "2020-07-17T12:20:00", "own"),
    ] {
        dir.set(app, vec![entry(&SUBSCRIPTIONS, datetime, text("url"), text(value))]);
    }
    dir.pull(&mut app3, &());
    let lines = dir.lines(&app3, "b9");
    assert_eq!(lines.len(), 1);
    assert_eq!(lines[0][3], "new");
    assert_eq!(
        dir.local_sequences(&app3).unwrap(),
        parsed("{\"app1\": {\"b9\": 1}, \"app2\": {\"b9\": 1}}")
    );
}

#[test]
fn maintenance_entries_are_taken_over_only_without_listeners() {
    let mut dir = Dir::new(&["app1", "app2", "app3"]);
    let app1 = instance("app1");
    let mut app2 = instance("app2");
    let mut app3 = instance("app3");
    dir.set(
        &app1,
        vec![
            entry(&["info"], "2020-07-17T12:30:00", text("last-active-app1"), text("2020-07-17")),
            entry(&["info"], "2020-07-17T12:31:00", text("name"), text("MyCollection")),
        ],
    );
    dir.pull(&mut app2, &());
    assert_eq!(dir.lines(&app2, "info").len(), 1);
    assert_eq!(dir.lines(&app2, "info")[0][2], "name");
    dir.init(&mut app3);
    assert_eq!(dir.lines(&app3, "info").len(), 2);
}

#[test]
fn a_pull_of_what_has_been_read_tells_nobody_and_writes_nothing() {
    let mut dir = Dir::new(&["app1", "app2"]);
    let app1 = instance("app1");
    let mut app2 = instance("app2");
    let told = Rc::new(Cell::new(0));
    let told_in_listener = told.clone();
    app2.add_multi_listener(vec![], move |_, _, _| told_in_listener.set(told_in_listener.get() + 1));
    dir.set(
        &app1,
        vec![entry(&SUBSCRIPTIONS, "2020-07-17T12:30:00", text("a"), Value::Bool(true))],
    );
    dir.pull(&mut app2, &());
    assert_eq!(told.get(), 1);

    let marker = "[[\"x\"],\"2020\",\"k\",1]".to_owned();
    let own = below(app2.own_v2_dir(), "b9");
    let state = app2.state_file();
    let read = dir.files.read(&state).unwrap().clone();
    dir.apply(vec![FileWrite { path: own.clone(), text: marker.clone() }]);
    dir.pull(&mut app2, &());
    assert_eq!(told.get(), 1);
    assert_eq!(dir.files.read(&own), Some(&marker));
    assert_eq!(dir.files.read(&state), Some(&read));
}

#[test]
fn a_listener_is_told_once_about_each_path_and_nobody_else_is() {
    let mut dir = Dir::new(&["app1"]);
    let mut app1 = instance("app1");
    dir.set(
        &app1,
        vec![
            entry(&["b", "x"], "2020-07-17T12:30:00", text("1"), Value::Null),
            entry(&["a", "x"], "2020-07-17T12:31:00", text("2"), Value::Null),
            entry(&["a", "x"], "2020-07-17T12:32:00", text("3"), Value::Null),
            entry(&["c"], "2020-07-17T12:33:00", text("4"), Value::Null),
        ],
    );
    let told = Rc::new(RefCell::new(Vec::new()));
    for (name, subpath) in [("first", vec!["a"]), ("second", vec!["a", "x"]), ("third", vec!["b"])] {
        let told_in_listener = told.clone();
        app1.add_multi_listener(path(&subpath), move |at, entries, _| {
            told_in_listener.borrow_mut().push((name, at, entries.len()));
        });
    }
    app1.execute_stored_entries_for_path_prefix(path(&["a"]), &(), None, &dir.files).unwrap();
    assert_eq!(*told.borrow(), vec![("first", path(&["x"]), 2)]);
    told.borrow_mut().clear();
    app1.execute_stored_entries_for_path_exact(path(&["b", "x"]), &(), None, &dir.files).unwrap();
    app1.execute_stored_entries_for_path_exact(path(&["c"]), &(), None, &dir.files).unwrap();
    assert_eq!(*told.borrow(), vec![("third", path(&["x"]), 1)]);
}

#[test]
fn the_own_sequence_numbers_stay_when_an_app_lists_its_own_as_entries() {
    let mut dir = Dir::new(&["app1", "app2"]);
    let app1 = instance("app1");
    let mut app2 = instance("app2");
    dir.set(
        &app2,
        vec![entry(&SUBSCRIPTIONS, "2020-07-17T12:30:00", text("a"), Value::Bool(true))],
    );
    let listing = "{\r\n \"sequences\": 3,\n\"[[\\\"a\\\"],\": 1\n}\n";
    dir.apply(vec![FileWrite { path: app1.sequences_file(), text: listing.to_owned() }]);
    dir.pull(&mut app2, &());
    assert_eq!(dir.sequences(&app2), parsed("{\"b9\": 1}"));
    assert_eq!(dir.local_sequences(&app2).unwrap(), parsed("{\"app1\": {\"sequences\": 3}}"));
}

#[test]
fn a_set_entry_has_the_time_of_the_clock() {
    let mut dir = Dir::new(&["app1"]);
    let app1 = instance("app1");
    dir.set_now(&app1, &SUBSCRIPTIONS, text("a"), Value::Bool(true));
    let datetime = dir.lines(&app1, "b9")[0][1].as_str().unwrap().to_owned();
    let read = chrono::NaiveDateTime::parse_from_str(&datetime, "%Y-%m-%dT%H:%M:%S").unwrap();
    assert!((chrono::Utc::now().naive_utc() - read).num_seconds().abs() < 60);
}
