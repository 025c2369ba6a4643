use noda_core::delta::SyncAction;
use noda_core::engine::{
    action_label, action_relative_path, changed_devices, check_sync_allowed, collection_paths, conflict_note_id,
    deleted_peer_paths, downloaded_metadata, file_stem, hex16, is_ignored_peer_path, manifest_files, manifest_path,
    manifest_publish_due, missing_parent_collections, mkcol_failure_tolerated, peer_change_decision,
    peer_deletion_decision, plan_local_actions, progress_of, prune_stale_devices, retry_step, signature_device_of,
    signature_path, signature_record, uploaded_metadata, visible_peer_paths, DirtyFile, Outcome, PeerDecision,
    RetryStep, SyncConfig, SyncReport, SyncStatus, TrackedFile,
};
use noda_core::errors::NodaError;
use noda_core::models::{DeviceMetadata, RemoteEntry, RemoteFileMetadata, RemoteState};
use noda_core::time::Timestamp;

const ID: &str = "01H7V18105M5MWRB28Z1220000";
const NOV_14: &str = "Tue, 14 Nov 2023 22:13:20 GMT";

fn at(secs: i64) -> Timestamp {
    Timestamp { secs, nanos: 0 }
}

fn entry(href: &str, collection: bool, etag: Option<&str>, modified: Option<&str>, size: Option<u64>) -> RemoteEntry {
    RemoteEntry {
        href: href.to_string(),
        is_collection: collection,
        last_modified: modified.map(|s| s.to_string()),
        size,
        etag: etag.map(|s| s.to_string()),
    }
}

fn device(etag: Option<&str>, modified: Option<i64>) -> DeviceMetadata {
    DeviceMetadata { last_known_etag: etag.map(|s| s.to_string()), last_known_modified: modified.map(at) }
}

fn meta(hash: &str, dirty: bool) -> RemoteFileMetadata {
    RemoteFileMetadata { etag: None, last_modified: None, size: 0, local_updated_at: None, hash: hash.to_string(), is_dirty: dirty }
}

fn strings(v: &[&str]) -> Vec<String> {
    v.iter().map(|s| s.to_string()).collect()
}

fn signatures() -> Vec<RemoteEntry> {
    vec![
        entry("/dav/.noda/sync/", true, None, None, None),
        entry("/dav/.noda/sync/me.sync", false, Some("m"), None, Some(0)),
        entry("/dav/.noda/sync/phone.sync", false, Some("e1"), None, Some(0)),
        entry("/dav/.noda/sync/tablet.sync", false, Some("e2"), None, Some(0)),
        entry("/dav/.noda/sync/laptop.sync", false, None, Some(NOV_14), Some(0)),
        entry("/dav/.noda/sync/manifests/manifest_phone.json", false, Some("x"), None, Some(10)),
    ]
}

#[test]
fn signature_entries_name_their_device() {
    assert_eq!(signature_device_of(&signatures()[2]), Some("phone".to_string()));
    assert_eq!(signature_device_of(&signatures()[0]), None);
    assert_eq!(signature_device_of(&signatures()[5]), None);
}

#[test]
fn only_peers_whose_signature_moved_are_pulled() {
    let mut state = RemoteState::new();
    state.set_device("tablet".to_string(), device(Some("e2"), None));
    state.set_device("laptop".to_string(), device(None, Some(1_700_000_000)));
    let changed = changed_devices(&signatures(), "me", &state);
    let names: Vec<&str> = changed.iter().map(|c| c.name.as_str()).collect();
    assert_eq!(names, vec!["phone"]);
    assert_eq!(changed[0].entry.etag.as_deref(), Some("e1"));

    state.set_device("laptop".to_string(), device(None, Some(1_600_000_000)));
    let changed = changed_devices(&signatures(), "me", &state);
    let names: Vec<&str> = changed.iter().map(|c| c.name.as_str()).collect();
    assert_eq!(names, vec!["phone", "laptop"]);
}

#[test]
fn devices_no_longer_listed_are_forgotten() {
    let mut state = RemoteState::new();
    state.set_device("tablet".to_string(), device(Some("e2"), None));
    state.set_device("ghost".to_string(), device(Some("g"), None));
    state.set_device("me".to_string(), device(Some("m"), None));
    let listing = vec![entry("/dav/.noda/sync/tablet.sync", false, Some("e2"), None, Some(0))];
    assert!(prune_stale_devices(&mut state, &listing, "me"));
    assert!(state.find_device("ghost").is_none());
    assert!(state.find_device("tablet").is_some());
    assert!(state.find_device("me").is_some());
    assert!(!prune_stale_devices(&mut state, &listing, "me"));
}

#[test]
fn peer_manifest_paths() {
    let previous = strings(&["a.md", "b.md", "Photos/.DS_Store", "x/.hidden", "c.md"]);
    let manifest = strings(&["a.md", "c.md"]);
    assert_eq!(deleted_peer_paths(&previous, &manifest), strings(&["b.md"]));
    assert_eq!(visible_peer_paths(&strings(&["a.md", "dir/.git/x", "pics/THUMBS.DS_STORE"])), strings(&["a.md"]));
    assert!(is_ignored_peer_path("Photos/.DS_Store"));
    assert!(!is_ignored_peer_path(".noda/attachments/a.png"));
}

#[test]
fn note_ids_of_paths() {
    assert_eq!(conflict_note_id(&format!("work/{}.md", ID)), Some(ID.to_string()));
    assert_eq!(conflict_note_id(&format!("{}.md", ID.to_lowercase())), Some(ID.to_string()));
    assert_eq!(conflict_note_id(&format!(".noda/history/{}.md", ID)), None);
    assert_eq!(conflict_note_id("notes/plain.md"), None);
    let stem: String = file_stem(&"a.b.md".chars().collect::<Vec<_>>()).into_iter().collect();
    assert_eq!(stem, "a.b");
    let hidden: String = file_stem(&".hidden".chars().collect::<Vec<_>>()).into_iter().collect();
    assert_eq!(hidden, ".hidden");
}

#[test]
fn peer_deletions() {
    let note_path = format!("{}.md", ID);
    assert!(matches!(peer_deletion_decision(&note_path, false, None), PeerDecision::Skip));
    match peer_deletion_decision(&note_path, true, Some(&meta("h", false))) {
        PeerDecision::Act(SyncAction::DeleteLocal { relative_path }) => assert_eq!(relative_path, note_path),
        other => panic!("unexpected {:?}", other),
    }
    match peer_deletion_decision(&note_path, true, Some(&meta("h", true))) {
        PeerDecision::ResolveConflict { note_id, remote_entry } => {
            assert_eq!(note_id, ID);
            assert_eq!(remote_entry.href, note_path);
            assert_eq!(remote_entry.size, Some(0));
            assert!(remote_entry.etag.is_none());
        }
        other => panic!("unexpected {:?}", other),
    }
    assert!(matches!(peer_deletion_decision(".noda/attachments/a.png", true, Some(&meta("h", true))), PeerDecision::Skip));
}

#[test]
fn peer_changes() {
    let note_path = format!("{}.md", ID);
    let new_hash = "h2".to_string();
    match peer_change_decision(&note_path, false, None, Some(&new_hash)) {
        PeerDecision::Act(SyncAction::Download { relative_path, remote_entry }) => {
            assert_eq!(relative_path, note_path);
            assert_eq!(remote_entry.etag.as_deref(), Some("h2"));
            assert!(remote_entry.size.is_none());
        }
        other => panic!("unexpected {:?}", other),
    }
    assert!(matches!(peer_change_decision(&note_path, true, Some(&meta("h2", true)), Some(&new_hash)), PeerDecision::Skip));
    assert!(matches!(
        peer_change_decision(&note_path, true, Some(&meta("h1", false)), Some(&new_hash)),
        PeerDecision::Act(SyncAction::Download { .. })
    ));
    assert!(matches!(
        peer_change_decision(&note_path, true, Some(&meta("h1", true)), Some(&new_hash)),
        PeerDecision::ResolveConflict { .. }
    ));
    assert!(matches!(peer_change_decision(&note_path, true, None, None), PeerDecision::Skip));
}

#[test]
fn local_pushes_skip_paths_the_pull_settles() {
    let dirty = vec![
        DirtyFile { path: "a.md".to_string(), exists: true },
        DirtyFile { path: "b.md".to_string(), exists: false },
        DirtyFile { path: "c.md".to_string(), exists: true },
    ];
    let remote = vec![SyncAction::Download { relative_path: "c.md".to_string(), remote_entry: entry("c.md", false, None, None, None) }];
    let plan = plan_local_actions(3, 1, &dirty, &remote);
    assert_eq!(plan.len(), 2);
    assert!(matches!(&plan[0], SyncAction::Upload { relative_path } if relative_path == "a.md"));
    assert!(matches!(&plan[1], SyncAction::DeleteRemote { relative_path } if relative_path == "b.md"));
    assert!(plan_local_actions(0, 0, &dirty, &remote).is_empty());
    assert!(plan_local_actions(2, 2, &dirty, &remote).is_empty());
}

#[test]
fn progress_and_labels() {
    let a = SyncAction::DeleteRemote { relative_path: "x.md".to_string() };
    assert_eq!(action_label(&a), "remote_delete");
    assert_eq!(action_relative_path(&a), "x.md");
    let p = progress_of(&a, 2, 5);
    assert_eq!(p.status, "Processing");
    assert_eq!(p.action, "remote_delete");
    assert_eq!(p.file_path, "x.md");
    assert_eq!((p.current_index, p.total_count), (2, 5));
}

#[test]
fn failed_steps_are_retried_three_times_then_quarantined() {
    assert_eq!(retry_step(0, false), RetryStep::RetryAfter { secs: 1 });
    assert_eq!(retry_step(1, false), RetryStep::RetryAfter { secs: 2 });
    assert_eq!(retry_step(2, false), RetryStep::RetryAfter { secs: 3 });
    assert_eq!(retry_step(3, false), RetryStep::Quarantine);
    assert_eq!(retry_step(1, true), RetryStep::Done);
}

#[test]
fn manifests_list_clean_existing_hashed_files() {
    let file_row = |path: &str, hash: &str, dirty: bool, retries: i64, exists: bool| TrackedFile {
        path: path.to_string(),
        hash: hash.to_string(),
        is_dirty: dirty,
        retry_count: retries,
        exists,
    };
    let files = vec![
        file_row("a.md", "h", false, 0, true),
        file_row("b.md", "", false, 0, true),
        file_row("c.md", "h", true, 1, true),
        file_row("d.md", "h", false, 0, false),
        file_row("e.md", "h2", true, 0, true),
    ];
    let m = manifest_files(&files);
    let listed: Vec<(&str, &str)> = m.iter().map(|f| (f.path.as_str(), f.hash.as_str())).collect();
    assert_eq!(listed, vec![("a.md", "h"), ("e.md", "h2")]);
    assert_eq!(manifest_path("phone"), ".noda/sync/manifests/manifest_phone.json");
    assert_eq!(signature_path("phone"), ".noda/sync/phone.sync");
}

#[test]
fn publishing_waits_for_remote_changes_and_no_pending_files() {
    let mut r = SyncReport::new();
    assert!(!manifest_publish_due(0, &r));
    r.record(Outcome::Downloaded, "a.md".to_string());
    assert!(!manifest_publish_due(0, &r));
    r.record(Outcome::DeletedRemote, "b.md".to_string());
    assert!(manifest_publish_due(0, &r));
    assert!(!manifest_publish_due(1, &r));
}

#[test]
fn parent_collections_are_created_outermost_first() {
    let listing = vec![
        entry("/work/", true, None, None, None),
        entry("/work/2024/", true, None, None, None),
        entry("/a.md", false, None, None, Some(1)),
    ];
    let existing = collection_paths(&listing, "");
    assert_eq!(existing, strings(&["work", "work/2024"]));
    assert_eq!(missing_parent_collections("work/2024/jan/note.md", &existing), strings(&["work/2024/jan"]));
    assert_eq!(missing_parent_collections("x/y/z.md", &existing), strings(&["x", "x/y"]));
    assert!(missing_parent_collections("top.md", &existing).is_empty());
    assert!(mkcol_failure_tolerated("Sync error: MKCOL failed: 405 Method Not Allowed"));
    assert!(mkcol_failure_tolerated("Sync error: MKCOL failed: 409 Conflict"));
    assert!(!mkcol_failure_tolerated("Sync error: MKCOL failed: 500 Internal Server Error"));
}

#[test]
fn records_of_transferred_files() {
    let listed = entry("a.md", false, Some("E"), Some(NOV_14), Some(42));
    let up = uploaded_metadata(Some(&listed), 10, at(5), "h".to_string());
    assert_eq!(up.etag.as_deref(), Some("E"));
    assert_eq!(up.last_modified.map(|t| t.secs), Some(1_700_000_000));
    assert_eq!(up.size, 42);
    assert_eq!(up.local_updated_at.map(|t| t.secs), Some(5));
    assert_eq!(up.hash, "h");
    assert!(!up.is_dirty);
    let bare = uploaded_metadata(None, 10, at(5), "h".to_string());
    assert!(bare.etag.is_none());
    assert_eq!(bare.last_modified.map(|t| t.secs), Some(5));
    assert_eq!(bare.size, 10);
    let unsized_entry = entry("a.md", false, None, Some("not a date"), None);
    let down = downloaded_metadata(&unsized_entry, 7, at(6), "h3".to_string());
    assert!(down.last_modified.is_none());
    assert_eq!(down.size, 7);
    let sig = signature_record(&listed);
    assert_eq!(sig.last_known_etag.as_deref(), Some("E"));
    assert_eq!(sig.last_known_modified.map(|t| t.secs), Some(1_700_000_000));
}

#[test]
fn manual_sync_waits_for_a_running_one() {
    match check_sync_allowed(&SyncStatus::Syncing) {
        Err(NodaError::Sync(m)) => assert_eq!(m, "Sync already in progress"),
        other => panic!("unexpected {:?}", other),
    }
    assert!(check_sync_allowed(&SyncStatus::Idle).is_ok());
    assert!(check_sync_allowed(&SyncStatus::Error("x".to_string())).is_ok());
}

#[test]
fn device_names_are_generated_only_when_missing() {
    let mut c = SyncConfig::unconfigured();
    assert_eq!(c.interval_secs, 300);
    assert!(c.webdav_url.is_empty());
    assert!(c.device_name.starts_with("Noda-Device-"));
    assert!(!c.ensure_device_name());
    c.device_name = String::new();
    assert!(c.ensure_device_name());
    assert_eq!(c.device_name.len(), 16);
    assert_eq!(hex16(255), "00000000000000ff");
}
