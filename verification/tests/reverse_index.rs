use cache_core::ReverseIndex;

#[test]
fn associate_and_lookup() {
    let mut ri = ReverseIndex::new();
    ri.associate("src/X.bsl", "ci|ut|grep_body|abc");
    ri.associate("src/Y.bsl", "ci|ut|grep_body|abc");
    ri.associate("src/X.bsl", "ci|ut|search_function|def");

    let mut keys = ri.keys_for_files(&["src/X.bsl".into()]);
    keys.sort();
    assert_eq!(
        keys,
        vec![
            "ci|ut|grep_body|abc".to_string(),
            "ci|ut|search_function|def".to_string()
        ]
    );

    let keys_y = ri.keys_for_files(&["src/Y.bsl".into()]);
    assert_eq!(keys_y, vec!["ci|ut|grep_body|abc"]);
}

#[test]
fn keys_for_multiple_files_are_deduplicated() {
    let mut ri = ReverseIndex::new();
    ri.associate("src/X.bsl", "key1");
    ri.associate("src/Y.bsl", "key1");
    ri.associate("src/Y.bsl", "key2");

    let mut keys = ri.keys_for_files(&["src/X.bsl".into(), "src/Y.bsl".into()]);
    keys.sort();
    assert_eq!(keys, vec!["key1".to_string(), "key2".to_string()]);
}

#[test]
fn remove_files_drops_entries() {
    let mut ri = ReverseIndex::new();
    ri.associate("src/X.bsl", "key1");
    ri.associate("src/Y.bsl", "key2");
    assert_eq!(ri.len(), 2);

    ri.remove_files(&["src/X.bsl".into()]);
    assert_eq!(ri.len(), 1);
    assert!(ri.keys_for_files(&["src/X.bsl".into()]).is_empty());
    assert_eq!(ri.keys_for_files(&["src/Y.bsl".into()]), vec!["key2"]);
}

#[test]
fn remove_key_cleans_up_empty_sets() {
    let mut ri = ReverseIndex::new();
    ri.associate("src/X.bsl", "key1");
    ri.associate("src/X.bsl", "key2");
    assert_eq!(ri.len(), 1);

    ri.remove_key_from_files(&["src/X.bsl".into()], "key1");
    assert_eq!(ri.len(), 1);
    assert_eq!(ri.keys_for_files(&["src/X.bsl".into()]), vec!["key2"]);

    ri.remove_key_from_files(&["src/X.bsl".into()], "key2");
    assert_eq!(ri.len(), 0);
}

#[test]
fn clear_drops_all() {
    let mut ri = ReverseIndex::new();
    ri.associate("src/X.bsl", "key1");
    ri.associate("src/Y.bsl", "key2");
    assert!(!ri.is_empty());
    ri.clear();
    assert_eq!(ri.len(), 0);
    assert!(ri.is_empty());
}

#[test]
fn a_link_is_noted_once() {
    let mut ri = ReverseIndex::new();
    ri.associate("f", "k");
    ri.associate("f", "k");
    assert_eq!(ri.keys_for_files(&["f".into(), "f".into()]), vec!["k"]);
    ri.remove_key_from_files(&["f".into(), "g".into(), "f".into()], "k");
    assert!(ri.is_empty());
}
