use dfs_core::errors::StorageError;
use dfs_core::storage::{StorageEngine, is_valid_name};

#[test]
fn store_then_retrieve_returns_bytes_unchanged() {
    let mut engine = StorageEngine::new();
    let bytes = vec![1u8, 2, 3, 4, 5];
    assert_eq!(engine.store("alpha", bytes.clone()), Ok(()));
    assert_eq!(engine.retrieve("alpha"), Ok(bytes));
}

#[test]
fn retrieve_missing_returns_not_found() {
    let engine = StorageEngine::new();
    assert_eq!(engine.retrieve("ghost"), Err(StorageError::NotFound));
}

#[test]
fn delete_missing_returns_not_found() {
    let mut engine = StorageEngine::new();
    assert_eq!(engine.delete("ghost"), Err(StorageError::NotFound));
}

#[test]
fn last_write_wins() {
    let mut engine = StorageEngine::new();
    assert_eq!(engine.store("name", b"first".to_vec()), Ok(()));
    assert_eq!(engine.store("name", b"second".to_vec()), Ok(()));
    assert_eq!(engine.retrieve("name"), Ok(b"second".to_vec()));
}

#[test]
fn invalid_names_are_rejected() {
    let mut engine = StorageEngine::new();
    for name in ["", "a/b", "a\\b", ".", ".."] {
        assert_eq!(
            engine.store(name, b"x".to_vec()),
            Err(StorageError::InvalidName),
            "name {:?} should be invalid",
            name
        );
    }
    assert!(!is_valid_name(""));
    assert!(!is_valid_name("up/../root"));
    assert!(is_valid_name("plain-name.txt"));
    assert!(is_valid_name("..."));
}

#[test]
fn delete_removes_and_second_delete_reports_not_found() {
    let mut engine = StorageEngine::new();
    assert_eq!(engine.store("doc", b"data".to_vec()), Ok(()));
    assert_eq!(engine.delete("doc"), Ok(()));
    assert_eq!(engine.retrieve("doc"), Err(StorageError::NotFound));
    assert_eq!(engine.delete("doc"), Err(StorageError::NotFound));
}

#[test]
fn list_is_sorted_lexicographically() {
    let mut engine = StorageEngine::new();
    assert_eq!(engine.store("zeta", b"1".to_vec()), Ok(()));
    assert_eq!(engine.store("alpha", b"2".to_vec()), Ok(()));
    assert_eq!(engine.store("mid", b"3".to_vec()), Ok(()));
    let names = engine.list();
    assert_eq!(names, vec!["alpha".to_string(), "mid".to_string(), "zeta".to_string()]);
}

#[test]
fn list_empty_store_is_empty() {
    let engine = StorageEngine::new();
    assert!(engine.list().is_empty());
}

#[test]
fn search_returns_exactly_matching_names_sorted() {
    let mut engine = StorageEngine::new();
    assert_eq!(engine.store("example.txt", b"a".to_vec()), Ok(()));
    assert_eq!(engine.store("other.txt", b"b".to_vec()), Ok(()));
    assert_eq!(engine.store("sample.txt", b"c".to_vec()), Ok(()));
    assert_eq!(engine.search("examp"), vec!["example.txt".to_string()]);
    assert_eq!(
        engine.search(".txt"),
        vec!["example.txt".to_string(), "other.txt".to_string(), "sample.txt".to_string()]
    );
    assert!(engine.search("nothing-like-this").is_empty());
    // the empty substring matches every name
    assert_eq!(engine.search("").len(), 3);
}

#[test]
fn search_is_case_sensitive() {
    let mut engine = StorageEngine::new();
    assert_eq!(engine.store("Example.txt", b"a".to_vec()), Ok(()));
    assert!(engine.search("examp").is_empty());
    assert_eq!(engine.search("Examp"), vec!["Example.txt".to_string()]);
}

#[test]
fn store_files_applies_each_item_independently() {
    let mut engine = StorageEngine::new();
    let files = vec![
        ("good".to_string(), b"1".to_vec()),
        ("bad/name".to_string(), b"2".to_vec()),
        ("fine".to_string(), b"3".to_vec()),
    ];
    let results = engine.store_files(&files);
    assert_eq!(results, vec![Ok(()), Err(StorageError::InvalidName), Ok(())]);
    assert_eq!(engine.retrieve("good"), Ok(b"1".to_vec()));
    assert_eq!(engine.retrieve("fine"), Ok(b"3".to_vec()));
    assert_eq!(engine.retrieve("bad/name"), Err(StorageError::NotFound));
}

#[test]
fn retrieve_files_reports_per_item_outcomes() {
    let mut engine = StorageEngine::new();
    assert_eq!(engine.store("here", b"data".to_vec()), Ok(()));
    let names = vec!["here".to_string(), "gone".to_string()];
    let results = engine.retrieve_files(&names);
    assert_eq!(results, vec![Ok(b"data".to_vec()), Err(StorageError::NotFound)]);
}

#[test]
fn delete_files_sees_earlier_deletes_in_the_batch() {
    let mut engine = StorageEngine::new();
    assert_eq!(engine.store("dup", b"x".to_vec()), Ok(()));
    let names = vec!["dup".to_string(), "dup".to_string()];
    let results = engine.delete_files(&names);
    assert_eq!(results, vec![Ok(()), Err(StorageError::NotFound)]);
    assert_eq!(engine.retrieve("dup"), Err(StorageError::NotFound));
}

#[test]
fn concurrent_store_orders_each_leave_one_whole_value() {
    // the engine serialises concurrent stores behind its exclusive
    // access; both admissible orders leave one caller's bytes entire
    let a = b"aaaa".to_vec();
    let b = b"bb".to_vec();

    let mut first = StorageEngine::new();
    assert_eq!(first.store("x", a.clone()), Ok(()));
    assert_eq!(first.store("x", b.clone()), Ok(()));
    let got_first = first.retrieve("x").unwrap();

    let mut second = StorageEngine::new();
    assert_eq!(second.store("x", b.clone()), Ok(()));
    assert_eq!(second.store("x", a.clone()), Ok(()));
    let got_second = second.retrieve("x").unwrap();

    assert!(got_first == a || got_first == b);
    assert!(got_second == a || got_second == b);
    assert_eq!(got_first, b);
    assert_eq!(got_second, a);
}

#[test]
fn unicode_names_and_contents_round_trip() {
    let mut engine = StorageEngine::new();
    assert_eq!(engine.store("héllo wörld.txt", "grüße".as_bytes().to_vec()), Ok(()));
    assert_eq!(engine.retrieve("héllo wörld.txt"), Ok("grüße".as_bytes().to_vec()));
    assert_eq!(engine.search("wörld"), vec!["héllo wörld.txt".to_string()]);
}
