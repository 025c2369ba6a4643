use noda_core::attachments::attachments_dir;
use noda_core::delta::{in_scope, is_local_changed, is_local_remote_identical, is_remote_changed, SyncAction};
use noda_core::history::{diff_chunks, history_dir, restore_note, LineChange, LineChangeKind};
use noda_core::models::{NoteId, RemoteEntry, RemoteFileMetadata};
use noda_core::notes::{blank_note_with, Frontmatter};
use noda_core::queue::{SyncQueue, SyncQueueEntry};
use noda_core::scan::is_markdown_path;
use noda_core::time::{is_before, same_instant, seconds_apart, Timestamp};
use noda_core::trash::{note_location, sidecar_name, trash_dir};
use noda_core::vault::{config_file_path, relative_to};

const ID: &str = "01H7V18105M5MWRB28Z1220000";
const NOV_14: &str = "Tue, 14 Nov 2023 22:13:20 GMT";

fn at(secs: i64) -> Timestamp {
    Timestamp { secs, nanos: 0 }
}

fn recorded(etag: Option<&str>, modified: Option<i64>, local: Option<i64>, size: u64) -> RemoteFileMetadata {
    RemoteFileMetadata {
        etag: etag.map(|s| s.to_string()),
        last_modified: modified.map(at),
        size,
        local_updated_at: local.map(at),
        hash: String::new(),
        is_dirty: false,
    }
}

fn remote(etag: Option<&str>, modified: Option<&str>, size: Option<u64>) -> RemoteEntry {
    RemoteEntry { href: "a.md".to_string(), is_collection: false, last_modified: modified.map(|s| s.to_string()), size, etag: etag.map(|s| s.to_string()) }
}

#[test]
fn vault_directories_and_files() {
    assert_eq!(attachments_dir("/v"), "/v/.noda/attachments");
    assert_eq!(history_dir("/v"), "/v/.noda/history");
    assert_eq!(trash_dir("/v/"), "/v/.noda/trash");
    assert_eq!(config_file_path("/v"), "/v/.noda/vault_config.json");
    assert_eq!(sidecar_name(ID), format!("{}.json", ID));
    assert_eq!(note_location("/v", "work/a.md"), "/v/work/a.md");
    assert_eq!(note_location("/v", "/elsewhere/a.md"), "/elsewhere/a.md");
    assert_eq!(relative_to("/v/work/a.md", "/v"), "work/a.md");
    assert!(is_markdown_path("notes/a.md"));
    assert!(is_markdown_path("notes/a.markdown"));
    assert!(!is_markdown_path("notes/a.txt"));
}

#[test]
fn remote_changes_go_by_etag_then_time_then_size() {
    let prev = recorded(Some("E"), Some(1_700_000_000), None, 10);
    assert!(!is_remote_changed(&remote(Some("E"), Some(NOV_14), Some(10)), &prev));
    assert!(is_remote_changed(&remote(Some("F"), Some(NOV_14), Some(10)), &prev));
    assert!(is_remote_changed(&remote(None, Some("Tue, 14 Nov 2023 22:13:22 GMT"), Some(10)), &prev));
    assert!(!is_remote_changed(&remote(None, Some("not a date"), None), &prev));
    assert!(is_remote_changed(&remote(None, None, Some(11)), &prev));
    assert!(is_remote_changed(&remote(Some("E"), None, None), &recorded(None, None, None, 0)));
}

#[test]
fn local_changes_go_by_time_then_size() {
    let mut n = blank_note_with(ID, at(100));
    n.updated_at = at(100);
    assert!(!is_local_changed(&n, 5, &recorded(None, None, Some(100), 5)));
    assert!(is_local_changed(&n, 6, &recorded(None, None, Some(100), 5)));
    assert!(is_local_changed(&n, 5, &recorded(None, None, Some(98), 5)));
    assert!(!is_local_changed(&n, 5, &recorded(None, Some(100), None, 5)));
    assert!(is_local_changed(&n, 5, &recorded(None, None, None, 5)));
    n.updated_at = at(1_700_000_000);
    assert!(is_local_remote_identical(&n, 10, &remote(None, Some(NOV_14), Some(10))));
    assert!(!is_local_remote_identical(&n, 11, &remote(None, Some(NOV_14), Some(10))));
    assert!(!is_local_remote_identical(&n, 10, &remote(None, None, Some(10))));
}

#[test]
fn plans_take_their_own_paths() {
    let p = |s: &str| s.chars().collect::<Vec<char>>();
    assert!(in_scope(&p(".noda/attachments/a.png"), true));
    assert!(in_scope(&p(".noda/history/x.md"), true));
    assert!(!in_scope(&p(".noda/sync/queue.json"), true));
    assert!(in_scope(&p("work/a.md"), false));
    assert!(!in_scope(&p(".noda/history/x.md"), false));
}

#[test]
fn instants_compare_to_the_nanosecond() {
    let a = Timestamp { secs: 10, nanos: 500_000_000 };
    let b = Timestamp { secs: 11, nanos: 400_000_000 };
    assert!(!seconds_apart(a, b));
    assert!(seconds_apart(a, Timestamp { secs: 11, nanos: 500_000_000 }));
    assert!(is_before(a, b));
    assert!(!is_before(b, a));
    assert!(same_instant(a, a));
    assert!(!same_instant(a, b));
}

#[test]
fn snapshots_restore_at_the_note_path() {
    let front = Frontmatter {
        id: NoteId(ID.to_string()),
        parent_id: None,
        title: "Old title".to_string(),
        color: None,
        pinned: false,
        tags: vec![],
        status: "active".to_string(),
        created_at: at(1),
        updated_at: at(2),
        is_encrypted: false,
        dek_encrypted: None,
        dek_nonce: None,
    };
    let n = restore_note(&front, "---\ntitle: Old title\n---\nold body");
    assert_eq!(n.title, "Old title");
    assert_eq!(n.body, "old body");
    assert_eq!(n.file_path, format!("{}.md", ID));
}

#[test]
fn diff_groups_become_chunks_with_separators() {
    let change = |kind: LineChangeKind, text: &str| LineChange { kind, text: text.to_string() };
    let groups = vec![
        vec![change(LineChangeKind::Equal, "a\n"), change(LineChangeKind::Delete, "b\n")],
        vec![change(LineChangeKind::Insert, "c\n")],
    ];
    let chunks: Vec<(String, String)> = diff_chunks(&groups).into_iter().map(|c| (c.tag, c.text)).collect();
    assert_eq!(
        chunks,
        vec![
            ("Equal".to_string(), "a\n".to_string()),
            ("Delete".to_string(), "b\n".to_string()),
            ("Separator".to_string(), "...".to_string()),
            ("Insert".to_string(), "c\n".to_string()),
        ]
    );
    assert!(diff_chunks(&vec![]).is_empty());
}

#[test]
fn queues_read_back_keep_their_order() {
    let entries = vec![
        SyncQueueEntry { id: "1".to_string(), action: SyncAction::Upload { relative_path: "a.md".to_string() } },
        SyncQueueEntry { id: "2".to_string(), action: SyncAction::DeleteRemote { relative_path: "b.md".to_string() } },
    ];
    let mut q = SyncQueue::from_entries(entries);
    assert_eq!(q.len(), 2);
    assert_eq!(q.dequeue().map(|e| e.id), Some("1".to_string()));
    assert_eq!(q.dequeue().map(|e| e.id), Some("2".to_string()));
    assert!(q.dequeue().is_none());
}
