use decsync::directory::get_decsync_subdir;
use decsync::file_utils::{read_lines, write_lines};
use decsync::info::{check_info, check_version, info_file};
use decsync::sequences::{
    read_local_sequences, read_sequences, write_local_sequences, write_sequences,
};
use decsync::{DecSyncError, DecSyncInstance, FileWrite, Files};

fn owned(texts: &[&str]) -> Vec<String> {
    texts.iter().map(|s| s.to_string()).collect()
}

#[test]
fn lines_end_with_line_feeds() {
    let text = write_lines(None, &owned(&["a", "", "b"]), false);
    assert_eq!(text, "a\n\nb\n");
    assert_eq!(read_lines(Some(&text)), owned(&["a", "", "b"]));
}

#[test]
fn appended_lines_come_after_the_text() {
    let old = "x\n".to_owned();
    assert_eq!(write_lines(Some(&old), &owned(&["a"]), true), "x\na\n");
    assert_eq!(write_lines(Some(&old), &owned(&["a"]), false), "a\n");
    assert_eq!(write_lines(None, &owned(&["a"]), true), "a\n");
}

#[test]
fn lines_are_read_as_std_reads_them() {
    for text in ["", "\n", "a", "a\n", "a\nb", "a\r\nb\r\n", "a\r", "\r\n\r", "a\n\n", "\r\r\n"] {
        let expected: Vec<String> = text.lines().map(String::from).collect();
        assert_eq!(read_lines(Some(&text.to_owned())), expected, "{:?}", text);
    }
    assert!(read_lines(None).is_empty());
}

#[test]
fn files_hold_what_was_written_last() {
    let mut files = Files::new();
    assert!(files.read(&owned(&["a", "b"])).is_none());
    files.write(FileWrite { path: owned(&["a", "b"]), text: "1".to_owned() });
    files.write(FileWrite { path: owned(&["a", "c"]), text: "2".to_owned() });
    files.write(FileWrite { path: owned(&["a", "b"]), text: "3".to_owned() });
    assert_eq!(files.read(&owned(&["a", "b"])).unwrap(), "3");
    assert_eq!(files.read(&owned(&["a", "c"])).unwrap(), "2");
    assert!(files.read(&owned(&["a"])).is_none());
}

#[test]
fn the_collection_is_the_last_component() {
    assert_eq!(get_decsync_subdir("/d", "rss", None), owned(&["/d", "rss"]));
    assert_eq!(get_decsync_subdir("/d", "contacts", Some("c")), owned(&["/d", "contacts", "c"]));
}

#[test]
fn sequences_are_read_back() {
    let text = " { \"b9\" : 2, \"07\": -1 } ".to_owned();
    let mut sequences = read_sequences(Some(&text));
    sequences.bump(&"b9".to_owned());
    sequences.bump(&"info".to_owned());
    let written = write_sequences(&sequences);
    assert_eq!(written, "{\"07\":-1,\"b9\":3,\"info\":1}\n");
    let again = read_sequences(Some(&written));
    assert_eq!(again.len(), 3);
    assert_eq!(again.get(&"b9".to_owned()), Some(&3));
}

#[test]
fn malformed_sequences_count_as_none() {
    assert_eq!(read_sequences(None).len(), 0);
    assert_eq!(read_sequences(Some(&"{".to_owned())).len(), 0);
    assert_eq!(read_sequences(Some(&"{\"a\": \"x\"}".to_owned())).len(), 0);
    assert_eq!(read_local_sequences(Some(&"{\"a\": 1}".to_owned())).len(), 0);
}

#[test]
fn sequence_numbers_wrap_around() {
    let text = format!("{{\"b9\":{}}}", i64::MAX);
    let mut sequences = read_sequences(Some(&text));
    sequences.bump(&"b9".to_owned());
    assert_eq!(sequences.get(&"b9".to_owned()), Some(&i64::MIN));
}

#[test]
fn read_states_are_read_back() {
    let text = "{\"phone\":{\"b9\":2}}".to_owned();
    let mut local = read_local_sequences(Some(&text));
    assert_eq!(local.already_read(&"phone".to_owned(), &"b9".to_owned()), 2);
    assert_eq!(local.already_read(&"phone".to_owned(), &"07".to_owned()), 0);
    assert_eq!(local.already_read(&"tablet".to_owned(), &"b9".to_owned()), 0);
    local.acknowledge(&"phone".to_owned(), &"07".to_owned(), 5);
    local.acknowledge(&"laptop".to_owned(), &"b9".to_owned(), 1);
    let written = write_local_sequences(&local);
    assert_eq!(written, "{\"laptop\":{\"b9\":1},\"phone\":{\"07\":5,\"b9\":2}}\n");
    let again = read_local_sequences(Some(&written));
    assert_eq!(again.already_read(&"phone".to_owned(), &"07".to_owned()), 5);
}

#[test]
fn other_versions_are_rejected() {
    assert!(check_info(None).is_ok());
    assert!(check_info(Some(&"{\"version\": 2}".to_owned())).is_ok());
    assert!(matches!(
        check_info(Some(&"{\"version\": 1}".to_owned())),
        Err(DecSyncError::UnsupportedVersion { supported: 2, found: 1 })
    ));
    for text in ["", "[]", "{}", "{\"version\": \"2\"}", "{\"version\": 2.0}"] {
        assert!(matches!(check_info(Some(&text.to_owned())), Err(DecSyncError::InvalidInfo)));
    }
    assert!(matches!(
        check_version(Some(3)),
        Err(DecSyncError::UnsupportedVersion { supported: 2, found: 3 })
    ));
    assert!(matches!(check_version(None), Err(DecSyncError::InvalidInfo)));
    assert!(check_version(Some(2)).is_ok());
    assert_eq!(info_file("/d"), owned(&["/d", ".decsync-info"]));
}

#[test]
fn directories_of_another_version_cannot_be_opened() {
    let open = |info: Option<&str>| {
        DecSyncInstance::<()>::open(
            info.map(|text| text.to_owned()).as_ref(),
            "/d".to_owned(),
            "rss".to_owned(),
            None,
            "app1".to_owned(),
        )
    };
    for info in [None, Some("{\"version\": 2}")] {
        let instance = open(info).unwrap_or_else(|_| panic!());
        assert_eq!(instance.own_app_id, "app1");
        assert_eq!(instance.own_v2_dir(), owned(&["/d", "rss", "v2", "app1"]));
    }
    assert!(matches!(
        open(Some("{\"version\": 1}")),
        Err(DecSyncError::UnsupportedVersion { supported: 2, found: 1 })
    ));
    assert!(matches!(open(Some("v1")), Err(DecSyncError::InvalidInfo)));
}
