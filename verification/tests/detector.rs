//! The change detector and the sync bookkeeping.

use dirsync::model::ChangeType;
use dirsync::model::ChangePatch;
use dirsync::model::FileChange;
use dirsync::model::FileDefinition;
use dirsync::model::LocalState;
use dirsync::model::SyncError;
use dirsync::state_manager::StateManager;

fn record(name: &str, path: &str, id: Option<&str>, size: Option<u64>) -> FileDefinition {
    FileDefinition {
        name: name.to_string(),
        path: path.to_string(),
        id: id.map(|s| s.to_string()),
        size,
        checksum: None,
        last_update: None,
    }
}

fn manager(files: Vec<FileDefinition>) -> StateManager {
    StateManager { local_state: LocalState { revision: 0, files } }
}

#[test]
fn detector_update_on_size_change() {
    let m = manager(vec![record("a", "", Some("1"), Some(10))]);
    let scanned = vec![record("a", "", None, Some(20))];
    let changes = m.get_changes(&scanned);
    assert_eq!(changes.len(), 1);
    assert!(matches!(changes[0].change, ChangeType::Update));
    assert_eq!(changes[0].file.id, Some("1".to_string()));
    assert_eq!(changes[0].file.size, Some(20));
    assert_eq!(changes[0].file.name, "a");
}

#[test]
fn detector_create_for_unknown_file() {
    let m = manager(vec![]);
    let scanned = vec![record("b", "", None, Some(5))];
    let changes = m.get_changes(&scanned);
    assert_eq!(changes.len(), 1);
    assert!(matches!(changes[0].change, ChangeType::Create));
    assert_eq!(changes[0].file.id, None);
    assert_eq!(changes[0].file.name, "b");
    assert_eq!(changes[0].file.size, Some(5));
}

#[test]
fn detector_delete_for_vanished_file() {
    let m = manager(vec![record("c", "", Some("2"), None)]);
    let changes = m.get_changes(&vec![]);
    assert_eq!(changes.len(), 1);
    assert!(matches!(changes[0].change, ChangeType::Delete));
    assert_eq!(changes[0].file.id, Some("2".to_string()));
}

#[test]
fn detector_no_changes_when_in_sync() {
    let m = manager(vec![
        record("a", "", Some("1"), Some(10)),
        record("b", "docs", Some("2"), Some(3)),
    ]);
    let scanned = vec![record("a", "", None, Some(10)), record("b", "docs", None, Some(3))];
    assert_eq!(m.get_changes(&scanned).len(), 0);
}

#[test]
fn detector_orders_scan_changes_then_deletes() {
    let m = manager(vec![record("gone", "", Some("1"), Some(1))]);
    let scanned = vec![record("new", "", None, Some(2))];
    let changes = m.get_changes(&scanned);
    assert_eq!(changes.len(), 2);
    assert!(matches!(changes[0].change, ChangeType::Create));
    assert!(matches!(changes[1].change, ChangeType::Delete));
}

#[test]
fn id_resolution_by_name_and_path() {
    let m = manager(vec![record("a", "docs", Some("7"), Some(1))]);
    assert_eq!(m.get_id_for_file(&record("a", "docs", None, Some(9))), Some("7".to_string()));
    assert_eq!(m.get_id_for_file(&record("a", "other", None, Some(9))), None);
    let resolved = m.get_actual_fs_state(&vec![
        record("a", "docs", None, Some(9)),
        record("z", "", None, Some(1)),
    ]);
    assert_eq!(resolved[0].id, Some("7".to_string()));
    assert_eq!(resolved[1].id, None);
}

#[test]
fn push_cycle_is_idempotent() {
    let mut m = manager(vec![]);
    let scanned = vec![record("b", "", None, Some(5))];
    let changes = m.get_changes(&scanned);
    assert_eq!(changes.len(), 1);
    for change in &changes {
        match change.change {
            ChangeType::Create => {
                // A healthy remote answers 201 and assigns an id.
                let created = dirsync::service::SyncService::create_empty(
                    &change.file,
                    201,
                    Some("id-9".to_string()),
                );
                m.sync_create_file(&created);
            }
            _ => panic!("unexpected change"),
        }
    }
    // Nothing changed on disk: the second run detects nothing.
    let again = m.get_changes(&scanned);
    assert_eq!(again.len(), 0);
}

#[test]
fn pull_delete_of_absent_file_completes() {
    // The patch orders a delete for id 5; the file is already gone from
    // disk, which the surrounding program only logs. The record leaves the
    // state and the cycle goes on.
    let mut m = manager(vec![record("gone", "", Some("5"), Some(1))]);
    let change = FileChange::new(record("gone", "", Some("5"), Some(1)), ChangeType::Delete);
    m.sync_delete_local_file(&change);
    assert_eq!(m.local_state.files.len(), 0);
    let scanned: Vec<FileDefinition> = vec![];
    assert_eq!(m.get_changes(&scanned).len(), 0);
}

#[test]
fn sync_update_applies_only_on_success() {
    let mut m = manager(vec![record("a", "", Some("1"), Some(1))]);
    let change = FileChange::new(record("a", "", Some("1"), Some(9)), ChangeType::Update);
    m.sync_update_file(&change, &Err(SyncError::TransportError));
    assert_eq!(m.local_state.files[0].size, Some(1));
    m.sync_update_file(&change, &Ok(true));
    assert_eq!(m.local_state.files[0].size, Some(9));
}

#[test]
fn sync_delete_applies_only_on_success() {
    let mut m = manager(vec![record("a", "", Some("1"), Some(1))]);
    let change = FileChange::new(record("a", "", Some("1"), Some(1)), ChangeType::Delete);
    m.sync_delete_file(&change, &Err(SyncError::TransportError));
    assert_eq!(m.local_state.files.len(), 1);
    m.sync_delete_file(&change, &Ok(true));
    assert_eq!(m.local_state.files.len(), 0);
}

#[test]
fn sync_download_upserts_only_after_write() {
    let mut m = manager(vec![]);
    let change = FileChange::new(record("d", "", Some("3"), Some(4)), ChangeType::DoDownload);
    m.sync_download_file(&change, false);
    assert_eq!(m.local_state.files.len(), 0);
    m.sync_download_file(&change, true);
    assert_eq!(m.local_state.files.len(), 1);
    assert_eq!(m.local_state.files[0].id, Some("3".to_string()));
}

#[test]
fn convergence_adopts_only_an_empty_patch() {
    let mut m = manager(vec![record("a", "", Some("1"), Some(1))]);
    let diverged = ChangePatch {
        revision: 9,
        changes: vec![FileChange::new(record("b", "", None, Some(2)), ChangeType::Create)],
    };
    assert!(!m.confirm_convergence(&diverged));
    assert_eq!(m.get_revision(), 0);
    let empty = ChangePatch { revision: 9, changes: vec![] };
    assert!(m.confirm_convergence(&empty));
    assert_eq!(m.get_revision(), 9);
    assert_eq!(m.local_state.files.len(), 1);
}

#[test]
fn adopt_revision_keeps_records() {
    let mut m = manager(vec![record("a", "", Some("1"), Some(1))]);
    m.adopt_revision(42);
    assert_eq!(m.get_revision(), 42);
    assert_eq!(m.local_state.files.len(), 1);
}

#[test]
fn get_local_file_definitions_copies() {
    let m = manager(vec![record("a", "", Some("1"), Some(1))]);
    let defs = m.get_local_file_definitions();
    assert_eq!(defs.len(), 1);
    assert_eq!(defs[0].name, "a");
    assert_eq!(defs[0].id, Some("1".to_string()));
}
