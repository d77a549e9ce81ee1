//! Records, validity, and the local state's mutators.

use dirsync::model::ChangeType;
use dirsync::model::FileChange;
use dirsync::model::FileDefinition;
use dirsync::model::LocalState;
use dirsync::model::SyncError;

fn record(name: &str, path: &str, id: Option<&str>, size: Option<u64>) -> FileDefinition {
    FileDefinition {
        name: name.to_string(),
        path: path.to_string(),
        id: id.map(|s| s.to_string()),
        size,
        checksum: None,
        last_update: None,
    }
}

#[test]
fn valid_needs_id_and_name() {
    assert!(record("a", "", Some("1"), None).is_valid());
    assert!(record("a", "docs", Some("1"), None).is_valid());
    assert!(!record("a", "", None, None).is_valid());
    assert!(!record("", "", Some("1"), None).is_valid());
    assert!(!record("", "", None, None).is_valid());
}

#[test]
fn new_record_is_bare() {
    let fd = FileDefinition::new("a.txt".to_string(), "docs".to_string());
    assert_eq!(fd.name, "a.txt");
    assert_eq!(fd.path, "docs");
    assert_eq!(fd.id, None);
    assert_eq!(fd.size, None);
    assert_eq!(fd.checksum, None);
    assert_eq!(fd.last_update, None);
}

#[test]
fn new_full_no_id_keeps_values() {
    let fd = FileDefinition::new_full_no_id("a".to_string(), "p".to_string(), 7, "c".to_string(), 9);
    assert_eq!(fd.id, None);
    assert_eq!(fd.size, Some(7));
    assert_eq!(fd.checksum, Some("c".to_string()));
    assert_eq!(fd.last_update, Some(9));
}

#[test]
fn set_to_keeps_id() {
    let mut fd = record("a", "", Some("1"), Some(1));
    let other = record("b", "q", Some("2"), Some(5));
    fd.set_to(&other);
    assert_eq!(fd.id, Some("1".to_string()));
    assert_eq!(fd.name, "b");
    assert_eq!(fd.path, "q");
    assert_eq!(fd.size, Some(5));
}

#[test]
fn require_id_present_and_absent() {
    assert_eq!(record("a", "", Some("1"), None).require_id(), Ok("1".to_string()));
    assert_eq!(record("a", "", None, None).require_id(), Err(SyncError::PreconditionError));
}

#[test]
fn file_change_new_pairs() {
    let c = FileChange::new(record("a", "", None, None), ChangeType::Create);
    assert!(matches!(c.change, ChangeType::Create));
    assert_eq!(c.file.name, "a");
}

#[test]
fn remove_file_drops_by_id() {
    let mut st = LocalState {
        revision: 3,
        files: vec![record("a", "", Some("1"), None), record("b", "", Some("2"), None)],
    };
    st.remove_file(&record("x", "", Some("1"), None));
    assert_eq!(st.revision, 3);
    assert_eq!(st.files.len(), 1);
    assert_eq!(st.files[0].id, Some("2".to_string()));
}

#[test]
fn update_file_refreshes_first_match() {
    let mut st = LocalState {
        revision: 0,
        files: vec![record("a", "", Some("1"), Some(1)), record("b", "", Some("2"), Some(2))],
    };
    st.update_file(&record("a2", "p", Some("1"), Some(10)));
    assert_eq!(st.files.len(), 2);
    assert_eq!(st.files[0].name, "a2");
    assert_eq!(st.files[0].path, "p");
    assert_eq!(st.files[0].size, Some(10));
    assert_eq!(st.files[0].id, Some("1".to_string()));
    assert_eq!(st.files[1].name, "b");
}

#[test]
fn update_file_without_match_changes_nothing() {
    let mut st = LocalState { revision: 0, files: vec![record("a", "", Some("1"), Some(1))] };
    st.update_file(&record("z", "", Some("9"), Some(9)));
    assert_eq!(st.files.len(), 1);
    assert_eq!(st.files[0].name, "a");
}

#[test]
fn upsert_unknown_id_adds() {
    let mut st = LocalState { revision: 0, files: vec![record("a", "", Some("1"), None)] };
    st.add_or_update_file(&record("b", "", Some("2"), Some(5)));
    assert_eq!(st.files.len(), 2);
    assert_eq!(st.files[1].id, Some("2".to_string()));
    assert_eq!(st.files[1].name, "b");
}

#[test]
fn upsert_known_id_overwrites_in_place() {
    let mut st = LocalState {
        revision: 0,
        files: vec![record("a", "", Some("1"), Some(1)), record("b", "", Some("2"), Some(2))],
    };
    st.add_or_update_file(&record("a2", "", Some("1"), Some(11)));
    assert_eq!(st.files.len(), 2);
    assert_eq!(st.files[0].name, "a2");
    assert_eq!(st.files[0].size, Some(11));
    assert_eq!(st.files[0].id, Some("1".to_string()));
    assert_eq!(st.files[1].name, "b");
}
