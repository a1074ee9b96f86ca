use file_session_store::{DirEntryModel, DirectoryModel, FileSessionStorage, SessionRecord, StoreDuration};

const NS: i128 = 1_000_000_000;

fn record(id: i128, expiry_nanos: i128, payload: &str) -> SessionRecord {
    SessionRecord { id, expiry_nanos, payload: payload.to_string() }
}

fn names(dir: &DirectoryModel) -> Vec<String> {
    dir.entries.iter().map(|e| e.name.clone()).collect()
}

#[test]
fn round_trip_create_then_load() {
    let store = FileSessionStorage::new();
    let mut dir = DirectoryModel::new();
    let rec = record(42, 1_000 * NS, "hello world");
    assert!(store.create(&mut dir, &rec, 10 * NS).is_ok());
    let loaded = store.load(&dir, 42).unwrap().unwrap();
    assert_eq!(loaded.id, 42);
    assert_eq!(loaded.expiry_nanos, 1_000 * NS);
    assert_eq!(loaded.payload, "hello world");
}

#[test]
fn create_duplicate_fails_and_preserves_original() {
    let store = FileSessionStorage::new();
    let mut dir = DirectoryModel::new();
    assert!(store.create(&mut dir, &record(7, 100 * NS, "original"), NS).is_ok());
    let err = store.create(&mut dir, &record(7, 200 * NS, "intruder"), 2 * NS).unwrap_err();
    assert_eq!(err.message, "Failed to open file");
    let loaded = store.load(&dir, 7).unwrap().unwrap();
    assert_eq!(loaded.payload, "original");
    assert_eq!(loaded.expiry_nanos, 100 * NS);
}

#[test]
fn save_requires_existing_file() {
    let store = FileSessionStorage::new();
    let mut dir = DirectoryModel::new();
    let err = store.save(&mut dir, &record(9, 100 * NS, "data"), NS).unwrap_err();
    assert_eq!(err.message, "Failed to open file");
    assert!(dir.entries.is_empty());
}

#[test]
fn delete_is_idempotent() {
    let store = FileSessionStorage::new();
    let mut dir = DirectoryModel::new();
    assert!(store.delete(&mut dir, 11).is_ok());
    assert!(store.create(&mut dir, &record(11, 100 * NS, "x"), NS).is_ok());
    assert!(store.delete(&mut dir, 11).is_ok());
    assert!(store.load(&dir, 11).unwrap().is_none());
    assert!(store.delete(&mut dir, 11).is_ok());
}

#[test]
fn save_overwrites_in_full() {
    let store = FileSessionStorage::new();
    let mut dir = DirectoryModel::new();
    assert!(store.create(&mut dir, &record(5, 100 * NS, "first"), NS).is_ok());
    assert!(store.save(&mut dir, &record(5, 300 * NS, "second"), 2 * NS).is_ok());
    let loaded = store.load(&dir, 5).unwrap().unwrap();
    assert_eq!(loaded.payload, "second");
    assert_eq!(loaded.expiry_nanos, 300 * NS);
    assert_eq!(dir.entries.len(), 1);
}

#[test]
fn sweep_keeps_young_file_even_if_expired() {
    let store = FileSessionStorage::new();
    let mut dir = DirectoryModel::new();
    // Expired long ago, but the file is only one second old.
    assert!(store.create(&mut dir, &record(3, 50 * NS, "stale"), 1_000 * NS).is_ok());
    assert!(store.delete_expired(&mut dir, 1_001 * NS).is_ok());
    assert_eq!(dir.entries.len(), 1);
}

#[test]
fn sweep_deletes_expired_file_once_old_enough() {
    let store = FileSessionStorage::new();
    let mut dir = DirectoryModel::new();
    assert!(store.create(&mut dir, &record(3, 50 * NS, "stale"), 1_000 * NS).is_ok());
    // Exactly at the 60-second threshold the file is inspected.
    assert!(store.delete_expired(&mut dir, 1_060 * NS).is_ok());
    assert!(dir.entries.is_empty());
    assert!(store.load(&dir, 3).unwrap().is_none());
}

#[test]
fn sweep_deletes_only_expired_records() {
    let store = FileSessionStorage::new();
    let mut dir = DirectoryModel::new();
    assert!(store.create(&mut dir, &record(1, 1_030 * NS, "gone soon"), 1_000 * NS).is_ok());
    assert!(store.create(&mut dir, &record(2, 9_999 * NS, "stays"), 1_000 * NS).is_ok());
    assert!(store.delete_expired(&mut dir, 1_120 * NS).is_ok());
    assert!(store.load(&dir, 1).unwrap().is_none());
    let kept = store.load(&dir, 2).unwrap().unwrap();
    assert_eq!(kept.payload, "stays");
}

#[test]
fn sweep_respects_configured_threshold() {
    let store = FileSessionStorage::new().set_minimum_expiry_date(StoreDuration::from_secs(600));
    let mut dir = DirectoryModel::new();
    assert!(store.create(&mut dir, &record(4, 50 * NS, "stale"), 1_000 * NS).is_ok());
    // 120 seconds old: old enough for the default, not for this store.
    assert!(store.delete_expired(&mut dir, 1_120 * NS).is_ok());
    assert_eq!(dir.entries.len(), 1);
    assert!(store.delete_expired(&mut dir, 1_601 * NS).is_ok());
    assert!(dir.entries.is_empty());
}

#[test]
fn sweep_leaves_foreign_files_alone() {
    let store = FileSessionStorage::new();
    let mut dir = DirectoryModel::new();
    dir.entries.push(DirEntryModel {
        name: "README".to_string(),
        content: b"not a session at all".to_vec(),
        modified_nanos: 0,
    });
    assert!(store.delete_expired(&mut dir, 10_000 * NS).is_ok());
    assert_eq!(dir.entries.len(), 1);
    assert_eq!(dir.entries[0].name, "README");
    assert_eq!(dir.entries[0].content, b"not a session at all".to_vec());
}

#[test]
fn sweep_twice_changes_nothing_more() {
    let store = FileSessionStorage::new();
    let mut dir = DirectoryModel::new();
    assert!(store.create(&mut dir, &record(1, 1_030 * NS, "expired"), 1_000 * NS).is_ok());
    assert!(store.create(&mut dir, &record(2, 9_999 * NS, "alive"), 1_000 * NS).is_ok());
    dir.entries.push(DirEntryModel {
        name: "stray.tmp".to_string(),
        content: b"junk".to_vec(),
        modified_nanos: 0,
    });
    assert!(store.delete_expired(&mut dir, 1_120 * NS).is_ok());
    let after_first = names(&dir);
    assert!(store.delete_expired(&mut dir, 1_120 * NS).is_ok());
    assert_eq!(names(&dir), after_first);
    assert_eq!(after_first.len(), 2);
}

#[test]
fn sweep_fails_on_future_modification_time() {
    let store = FileSessionStorage::new();
    let mut dir = DirectoryModel::new();
    assert!(store.create(&mut dir, &record(6, 9_999 * NS, "x"), 5_000 * NS).is_ok());
    let err = store.delete_expired(&mut dir, 1_000 * NS).unwrap_err();
    assert_eq!(err.message, "Failed to subtract dates");
    assert_eq!(dir.entries.len(), 1);
}

#[test]
fn sweep_fails_on_undecodable_session_file() {
    let store = FileSessionStorage::new();
    let mut dir = DirectoryModel::new();
    let name = tower_sessions_core::session::Id(5).to_string();
    dir.entries.push(DirEntryModel {
        name,
        content: b"{ definitely not a record".to_vec(),
        modified_nanos: 0,
    });
    let err = store.delete_expired(&mut dir, 10_000 * NS).unwrap_err();
    assert_eq!(err.message, "Failed to serialize/decode");
    assert_eq!(dir.entries.len(), 1);
}

#[test]
fn load_fails_on_undecodable_session_file() {
    let store = FileSessionStorage::new();
    let mut dir = DirectoryModel::new();
    dir.entries.push(DirEntryModel {
        name: tower_sessions_core::session::Id(5).to_string(),
        content: b"****".to_vec(),
        modified_nanos: 0,
    });
    let err = store.load(&dir, 5).unwrap_err();
    assert_eq!(err.message, "Failed to serialize/decode");
}

#[test]
fn file_name_is_the_canonical_identifier_form() {
    let store = FileSessionStorage::new();
    let mut dir = DirectoryModel::new();
    assert!(store.create(&mut dir, &record(0, 100 * NS, "zero"), NS).is_ok());
    assert_eq!(dir.entries[0].name, "AAAAAAAAAAAAAAAAAAAAAA");
    assert_eq!(dir.entries[0].name, tower_sessions_core::session::Id(0).to_string());
    assert!(store.create(&mut dir, &record(-1, 100 * NS, "ones"), NS).is_ok());
    assert_eq!(dir.entries[1].name, tower_sessions_core::session::Id(-1).to_string());
    assert_eq!(dir.entries[1].name.len(), 22);
    assert_ne!(dir.entries[0].name, dir.entries[1].name);
}

#[test]
fn file_content_is_the_json_record_triple() {
    let store = FileSessionStorage::new();
    let mut dir = DirectoryModel::new();
    let rec = record(12, 34 * NS, "payload text");
    assert!(store.create(&mut dir, &rec, NS).is_ok());
    let expected =
        serde_json::to_vec(&(12i128, 34 * NS, "payload text".to_string())).unwrap();
    assert_eq!(dir.entries[0].content, expected);
    assert_ne!(dir.entries[0].content, b"payload text".to_vec());
}

#[test]
fn session_file_path_joins_folder_and_name() {
    let store = FileSessionStorage::new_in_folder("tmp".to_string());
    assert_eq!(store.session_file_path(0), "tmp/AAAAAAAAAAAAAAAAAAAAAA");
}

#[test]
fn defaults_match_the_conventional_configuration() {
    let store = FileSessionStorage::new();
    assert_eq!(store.folder_name().as_str(), ".sessions");
    assert_eq!(store.minimum_expiry().secs, 60);
    assert_eq!(store.minimum_expiry().nanos, 0);
    let by_default = FileSessionStorage::default();
    assert_eq!(by_default.folder_name().as_str(), ".sessions");
    assert_eq!(by_default.minimum_expiry().secs, 60);
}

#[test]
fn configured_duration_is_kept() {
    let d = StoreDuration::new(2, 500_000_000);
    assert_eq!(d.secs, 2);
    assert_eq!(d.nanos, 500_000_000);
    let store = FileSessionStorage::new().set_minimum_expiry_date(d);
    assert_eq!(store.minimum_expiry().secs, 2);
    assert_eq!(store.minimum_expiry().nanos, 500_000_000);
}

#[test]
fn expiry_comparison_is_strict() {
    let rec = record(1, 100 * NS, "x");
    assert!(!rec.is_expired(100 * NS));
    assert!(rec.is_expired(100 * NS + 1));
    assert!(!rec.is_expired(99 * NS));
}
