//! Persistence round trips, the digest, paths and URLs, and the service
//! reply decisions.

use dirsync::codec;
use dirsync::model::ChangePatch;
use dirsync::model::FileDefinition;
use dirsync::model::LocalState;
use dirsync::model::SyncError;
use dirsync::service::SyncService;
use dirsync::state_manager::StateManager;
use dirsync::util::Util;

fn record(name: &str, path: &str, id: Option<&str>, size: Option<u64>) -> FileDefinition {
    FileDefinition {
        name: name.to_string(),
        path: path.to_string(),
        id: id.map(|s| s.to_string()),
        size,
        checksum: Some("d41d8cd98f00b204e9800998ecf8427e".to_string()),
        last_update: Some(1700000000),
    }
}

fn assert_same_records(a: &[FileDefinition], b: &[FileDefinition]) {
    assert_eq!(a.len(), b.len());
    for x in a {
        assert!(b.iter().any(|y| {
            y.name == x.name && y.path == x.path && y.id == x.id && y.size == x.size
                && y.checksum == x.checksum && y.last_update == x.last_update
        }));
    }
}

#[test]
fn state_round_trip() {
    let st = LocalState {
        revision: 17,
        files: vec![
            record("a.txt", "", Some("1"), Some(10)),
            record("b.txt", "docs/deep", None, None),
            record("", "", None, Some(0)),
        ],
    };
    let text = codec::encode_state(&st);
    let back = codec::decode_state(text.as_str()).expect("round trip failed");
    assert_eq!(back.revision, 17);
    assert_same_records(&back.files, &st.files);
}

#[test]
fn state_round_trip_empty() {
    let st = LocalState { revision: 0, files: vec![] };
    let text = codec::encode_state(&st);
    let back = codec::decode_state(text.as_str()).expect("round trip failed");
    assert_eq!(back.revision, 0);
    assert_eq!(back.files.len(), 0);
}

#[test]
fn state_round_trip_with_tag_like_contents() {
    // Names and ids made of the codec's own tag characters and digits must
    // survive unchanged: the format is length-prefixed, not delimited.
    let st = LocalState {
        revision: u64::MAX,
        files: vec![
            record("nsu000123", "n/s/u", Some("00000000000000000042"), Some(u64::MAX)),
            record("ключ.txt", "каталог", Some("n"), Some(1)),
        ],
    };
    let text = codec::encode_state(&st);
    let back = codec::decode_state(text.as_str()).expect("round trip failed");
    assert_eq!(back.revision, u64::MAX);
    assert_same_records(&back.files, &st.files);
}

#[test]
fn decode_rejects_garbage() {
    assert!(codec::decode_state("not a state").is_none());
    assert!(codec::decode_state("").is_none());
    let st = LocalState { revision: 3, files: vec![record("a", "", Some("1"), Some(1))] };
    let mut text = codec::encode_state(&st);
    text.push('x');
    assert!(codec::decode_state(text.as_str()).is_none());
    let truncated: String = codec::encode_state(&st).chars().take(30).collect();
    assert!(codec::decode_state(truncated.as_str()).is_none());
}

#[test]
fn encode_u64_is_twenty_digits() {
    assert_eq!(codec::encode_u64(0), "00000000000000000000");
    assert_eq!(codec::encode_u64(42), "00000000000000000042");
    assert_eq!(codec::encode_u64(u64::MAX), "18446744073709551615");
}

#[test]
fn load_default_initializes_or_decodes() {
    let fresh = StateManager::load_default(None).expect("fresh state failed");
    assert_eq!(fresh.get_revision(), 0);
    assert_eq!(fresh.get_local_file_definitions().len(), 0);

    let st = LocalState { revision: 9, files: vec![record("a", "", Some("1"), Some(2))] };
    let text = codec::encode_state(&st);
    let loaded = StateManager::load_default(Some(text.as_str())).expect("decode failed");
    assert_eq!(loaded.get_revision(), 9);
    assert_eq!(loaded.get_local_file_definitions().len(), 1);

    assert_eq!(
        StateManager::load_default(Some("broken")).err(),
        Some(SyncError::SerializationError)
    );
}

#[test]
fn save_state_matches_encoder() {
    let st = LocalState { revision: 5, files: vec![record("a", "", Some("1"), Some(2))] };
    let text = codec::encode_state(&st);
    let m = StateManager { local_state: st };
    assert_eq!(m.save_state(), text);
}

#[test]
fn state_path_is_reserved_name() {
    assert_eq!(StateManager::get_save_state_path("/tmp/root"), "/tmp/root/.sync-state");
    assert_eq!(StateManager::get_save_state_path("/tmp/root/"), "/tmp/root/.sync-state");
}

#[test]
fn checksum_is_md5_hex() {
    assert_eq!(Util::checksum(b""), "d41d8cd98f00b204e9800998ecf8427e");
    assert_eq!(Util::checksum(b"abc"), "900150983cd24fb0d6963f7d28e17f72");
    assert_eq!(
        Util::checksum(b"The quick brown fox jumps over the lazy dog"),
        "9e107d9d372bb6826bd81d3542a419d6"
    );
}

#[test]
fn build_url_prefixes_server() {
    assert_eq!(Util::build_url("api/v1/file"), "http://localhost:8000/api/v1/file");
}

#[test]
fn full_path_joins_base_path_name() {
    let deep = record("f.txt", "sub/dir", None, None);
    assert_eq!(Util::full_path("/root", &deep), "/root/sub/dir/f.txt");
    let flat = record("f.txt", "", None, None);
    assert_eq!(Util::full_path("/root", &flat), "/root/f.txt");
}

#[test]
fn full_path_doubles_no_separator() {
    // A base with a trailing separator joins as std's Path::join does.
    let deep = record("f.txt", "sub/dir", None, None);
    assert_eq!(Util::full_path("/root/", &deep), "/root/sub/dir/f.txt");
    let flat = record("f.txt", "", None, None);
    assert_eq!(Util::full_path("/root/", &flat), "/root/f.txt");
}

#[test]
fn split_full_path_at_last_slash() {
    assert_eq!(
        Util::split_full_path("sub/dir/f.txt"),
        ("sub/dir".to_string(), "f.txt".to_string())
    );
    assert_eq!(Util::split_full_path("f.txt"), ("".to_string(), "f.txt".to_string()));
}

#[test]
fn split_full_path_ignores_trailing_separators() {
    // Trailing separators name no component, as std's Path reads a path.
    assert_eq!(
        Util::split_full_path("sub/dir/"),
        ("sub".to_string(), "dir".to_string())
    );
    assert_eq!(Util::split_full_path("f.txt/"), ("".to_string(), "f.txt".to_string()));
}

#[test]
fn have_changed_ignores_checksum() {
    let a = record("a", "", Some("1"), Some(1));
    let mut b = record("a", "", Some("2"), Some(1));
    b.checksum = Some("other".to_string());
    assert!(!Util::have_changed(&a, &b));
    b.size = Some(2);
    assert!(Util::have_changed(&a, &b));
    let c = record("x", "", None, Some(1));
    assert!(Util::have_changed(&a, &c));
}

#[test]
fn scanned_definition_from_parts() {
    let fd = Util::get_local_file_definition("docs/a.txt", b"abc", 77);
    assert_eq!(fd.name, "a.txt");
    assert_eq!(fd.path, "docs");
    assert_eq!(fd.id, None);
    assert_eq!(fd.size, Some(3));
    assert_eq!(fd.checksum, Some("900150983cd24fb0d6963f7d28e17f72".to_string()));
    assert_eq!(fd.last_update, Some(77));
}

#[test]
fn create_reply_decisions() {
    let fd = record("a", "", None, Some(1));
    let ok = SyncService::create_empty(&fd, 201, Some("id-1".to_string())).expect("201 failed");
    assert_eq!(ok.id, Some("id-1".to_string()));
    assert_eq!(ok.name, "a");
    assert_eq!(
        SyncService::create_empty(&fd, 500, Some("id-1".to_string())).err(),
        Some(SyncError::TransportError)
    );
    assert_eq!(
        SyncService::create_empty(&fd, 201, None).err(),
        Some(SyncError::SerializationError)
    );
}

#[test]
fn upload_and_delete_reply_decisions() {
    assert_eq!(SyncService::update_file_fd(202), Ok(true));
    assert_eq!(SyncService::update_file_fd(500), Err(SyncError::TransportError));
    assert_eq!(SyncService::delete_file(202), Ok(true));
    assert_eq!(SyncService::delete_file(404), Err(SyncError::TransportError));
}

#[test]
fn fetch_reply_decisions() {
    assert_eq!(SyncService::get_file(200, vec![1, 2, 3]), Ok(vec![1, 2, 3]));
    assert_eq!(SyncService::get_file(404, vec![]), Err(SyncError::TransportError));
}

#[test]
fn patch_reply_decisions() {
    let patch = ChangePatch { revision: 4, changes: vec![] };
    let got = SyncService::get_patch(200, Some(patch), "{}".to_string()).expect("200 failed");
    assert_eq!(got.revision, 4);
    assert_eq!(got.changes.len(), 0);
    match SyncService::get_patch(200, None, "junk".to_string()) {
        Err((e, detail)) => {
            assert_eq!(e, SyncError::SerializationError);
            assert_eq!(detail, "junk");
        }
        Ok(_) => panic!("malformed body accepted"),
    }
    let patch = ChangePatch { revision: 4, changes: vec![] };
    match SyncService::get_patch(503, Some(patch), "server overloaded".to_string()) {
        Err((e, detail)) => {
            assert_eq!(e, SyncError::TransportError);
            assert_eq!(detail, "server overloaded");
        }
        Ok(_) => panic!("failure status accepted"),
    }
}
