use decsync::hash::{all_hashes, path_to_hash};

#[test]
fn basic_hashing() {
    let path = vec!["foo".to_owned(), "bar".to_owned(), "baz".to_owned()];
    assert_eq!(path_to_hash(path), "e2".to_owned());

    let path = vec!["feeds".to_owned(), "subscriptions".to_owned()];
    assert_eq!(path_to_hash(path), "b9".to_owned());

    let path = vec![
        "entries".to_owned(),
        "read".to_owned(),
        "2020".to_owned(),
        "09".to_owned(),
        "10".to_owned(),
    ];
    assert_eq!(path_to_hash(path), "b8".to_owned());

    let path = vec![
        "entries".to_owned(),
        "read".to_owned(),
        "2020".to_owned(),
        "08".to_owned(),
        "23".to_owned(),
    ];
    assert_eq!(path_to_hash(path), "07".to_owned());
}

#[test]
fn info() {
    let path = vec!["info".to_owned()];
    assert_eq!(path_to_hash(path), "info".to_owned())
}

#[test]
fn only_exact_info_path_is_exempt() {
    let path = vec!["feeds".to_owned(), "info".to_owned()];
    assert_ne!(path_to_hash(path), "info".to_owned());
}

#[test]
fn the_empty_path_has_the_first_hash() {
    assert_eq!(path_to_hash(vec![]), "00".to_owned());
}

#[test]
fn hashing_goes_over_utf8_bytes() {
    // 0xc3 * 19 + 0xa9 = 3874, which is 0x22 modulo 256.
    assert_eq!(path_to_hash(vec!["\u{e9}".to_owned()]), "22".to_owned());
}

#[test]
fn all_hashes_lists_every_file_once() {
    let hashes = all_hashes();
    assert_eq!(hashes.len(), 257);
    assert_eq!(hashes[0], "00");
    assert_eq!(hashes[10], "0a");
    assert_eq!(hashes[255], "ff");
    assert_eq!(hashes[256], "info");
    let mut distinct = hashes.clone();
    distinct.sort();
    distinct.dedup();
    assert_eq!(distinct.len(), 257);
}
