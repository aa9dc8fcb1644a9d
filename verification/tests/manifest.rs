use pz_launcher::error::EngineError;
use pz_launcher::manifest::{
    build, check_digest, hex_digest, is_already_applied, manifest_is_current,
    matches_destination, matches_source, ManifestEntry,
};

fn digest(c: char) -> String {
    std::iter::repeat(c).take(64).collect()
}

fn file(path: &str, size: u64, c: char) -> ManifestEntry {
    ManifestEntry { path: path.to_string(), size, hash: digest(c) }
}

fn tree() -> Vec<ManifestEntry> {
    vec![file("b\\c.txt", 20, 'b'), file("a.txt", 10, 'a')]
}

fn listing(entries: &Vec<ManifestEntry>) -> Vec<(String, u64, String)> {
    entries.iter().map(|e| (e.path.clone(), e.size, e.hash.clone())).collect()
}

#[test]
fn manifest_is_sorted_and_normalised() {
    let m = build(&tree()).unwrap();
    assert_eq!(m.len(), 2);
    assert_eq!(
        listing(m.entries()),
        vec![
            ("a.txt".to_string(), 10, digest('a')),
            ("b/c.txt".to_string(), 20, digest('b')),
        ]
    );
}

#[test]
fn manifest_of_nothing_is_empty() {
    let m = build(&Vec::new()).unwrap();
    assert_eq!(m.len(), 0);
}

#[test]
fn manifest_order_is_that_of_the_paths() {
    let scan = vec![
        file("z", 1, '1'),
        file("a/b", 1, '1'),
        file("a", 1, '1'),
        file("a.b", 1, '1'),
        file("B", 1, '1'),
        file("a\\a", 1, '1'),
    ];
    let m = build(&scan).unwrap();
    let mut expected: Vec<String> =
        scan.iter().map(|e| e.path.replace('\\', "/")).collect();
    expected.sort();
    let got: Vec<String> = m.entries().iter().map(|e| e.path.clone()).collect();
    assert_eq!(got, expected);
}

#[test]
fn scan_with_a_malformed_hash_is_refused() {
    let mut scan = tree();
    scan[1].hash = "abc".to_string();
    assert_eq!(build(&scan).unwrap_err(), EngineError::SerializationError);
    scan[1].hash = digest('G');
    assert_eq!(build(&scan).unwrap_err(), EngineError::SerializationError);
    scan[1].hash = digest('A');
    assert_eq!(build(&scan).unwrap_err(), EngineError::SerializationError);
}

#[test]
fn scan_with_the_same_path_twice_is_refused() {
    let scan = vec![file("a/b", 1, '1'), file("c", 2, '2'), file("a\\b", 3, '3')];
    assert_eq!(build(&scan).unwrap_err(), EngineError::SerializationError);
}

#[test]
fn digests_are_64_lowercase_hex_digits() {
    assert!(check_digest(&digest('0')));
    assert!(check_digest(&digest('f')));
    assert!(!check_digest(&digest('g')));
    assert!(!check_digest(&digest('F')));
    assert!(!check_digest(""));
    assert!(!check_digest(&digest('a')[1..]));
    assert!(!check_digest(&(digest('a') + "a")));
}

#[test]
fn bytes_in_hexadecimal() {
    assert_eq!(hex_digest(&vec![0x00, 0xff, 0x1a, 0xa1, 0x09]), "00ff1aa109");
    assert_eq!(hex_digest(&Vec::new()), "");
    let all: Vec<u8> = (0..32).collect();
    let text = hex_digest(&all);
    assert_eq!(text, "000102030405060708090a0b0c0d0e0f101112131415161718191a1b1c1d1e1f");
    assert!(check_digest(&text));
}

#[test]
fn manifest_matches_the_tree_it_was_built_from() {
    let scan = tree();
    let m = build(&scan).unwrap();
    assert!(matches_destination(&m, &scan));
    assert!(matches_source(&m, &scan));
}

#[test]
fn destination_must_hold_every_entry_with_size_and_hash() {
    let m = build(&tree()).unwrap();
    let mut extra = tree();
    extra.push(file("more.txt", 5, 'c'));
    assert!(matches_destination(&m, &extra));

    let mut other_size = tree();
    other_size[1].size = 11;
    assert!(!matches_destination(&m, &other_size));

    let mut other_hash = tree();
    other_hash[0].hash = digest('c');
    assert!(!matches_destination(&m, &other_hash));

    let missing = vec![file("a.txt", 10, 'a')];
    assert!(!matches_destination(&m, &missing));
    assert!(!matches_destination(&m, &Vec::new()));
}

#[test]
fn empty_manifest_matches_any_destination() {
    let m = build(&Vec::new()).unwrap();
    assert!(matches_destination(&m, &tree()));
    assert!(matches_destination(&m, &Vec::new()));
}

#[test]
fn source_check_looks_at_count_and_sizes_only() {
    let m = build(&tree()).unwrap();
    let mut other_hash = tree();
    other_hash[0].hash = "not hashed".to_string();
    assert!(matches_source(&m, &other_hash));

    let mut other_size = tree();
    other_size[0].size = 21;
    assert!(!matches_source(&m, &other_size));

    let mut more = tree();
    more.push(file("more.txt", 5, 'c'));
    assert!(!matches_source(&m, &more));

    let renamed = vec![file("b/c.txt", 20, 'b'), file("x.txt", 10, 'a')];
    assert!(!matches_source(&m, &renamed));
}

#[test]
fn current_manifest_is_trusted() {
    let stored = build(&tree()).unwrap();
    let mut unhashed = tree();
    unhashed[0].hash = String::new();
    unhashed[1].hash = String::new();
    assert!(manifest_is_current(Some(&stored), &unhashed));
    assert!(!manifest_is_current(None, &unhashed));

    let v = is_already_applied(Some(&stored), &unhashed, &tree()).unwrap();
    assert!(v.applied);
    assert!(v.persist.is_none());

    let mut drifted = tree();
    drifted[0].hash = digest('e');
    let v = is_already_applied(Some(&stored), &unhashed, &drifted).unwrap();
    assert!(!v.applied);
    assert!(v.persist.is_none());
}

#[test]
fn stale_manifest_is_rebuilt_and_stored_when_it_matches() {
    let stored = build(&vec![file("old.txt", 1, 'd')]).unwrap();
    let v = is_already_applied(Some(&stored), &tree(), &tree()).unwrap();
    assert!(v.applied);
    let fresh = v.persist.unwrap();
    assert_eq!(
        listing(fresh.entries()),
        vec![
            ("a.txt".to_string(), 10, digest('a')),
            ("b/c.txt".to_string(), 20, digest('b')),
        ]
    );
}

#[test]
fn no_manifest_and_no_match_stores_nothing() {
    let v = is_already_applied(None, &tree(), &Vec::new()).unwrap();
    assert!(!v.applied);
    assert!(v.persist.is_none());

    let v = is_already_applied(None, &tree(), &tree()).unwrap();
    assert!(v.applied);
    assert!(v.persist.is_some());
}

#[test]
fn stale_manifest_and_unusable_scan_is_an_error() {
    let mut scan = tree();
    scan[0].hash = String::new();
    assert_eq!(
        is_already_applied(None, &scan, &tree()).unwrap_err(),
        EngineError::SerializationError
    );
}

#[test]
fn error_messages() {
    assert_eq!(EngineError::NotFound.message(), "not found");
    assert_eq!(EngineError::AlreadyExists.message(), "already exists");
    assert_eq!(EngineError::IoError.message(), "I/O error");
    assert_eq!(EngineError::LinkCreationError.message(), "link creation failed");
    assert_eq!(EngineError::SerializationError.message(), "malformed data");
}
