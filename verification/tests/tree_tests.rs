use noda_core::conflict::{archive_file_name, conflict_time, latest_conflict, listed_conflict, new_conflict, order_conflicts};
use noda_core::dtos::note_metadata_dto;
use noda_core::folders::{add_to_tree, build_folder_tree, moved_folder_path, relocated_note_path, renamed_folder_path, FolderDto};
use noda_core::models::{RemoteFileMetadata, RemoteState};
use noda_core::notes::{adopted_remote, blank_note_with, created_note, edited_note, markdown_document};
use noda_core::scan::{check_file_mismatch, is_walk_visible, mismatch_action, tracked_action, MismatchAction, RecordedFile, TrackedAction};
use noda_core::time::Timestamp;
use noda_core::traversal::{entry_path, is_tree_visible, tree_root, tree_step};
use noda_core::models::RemoteEntry;

fn at(secs: i64) -> Timestamp {
    Timestamp { secs, nanos: 0 }
}

fn names(nodes: &[FolderDto]) -> Vec<String> {
    nodes.iter().map(|n| n.name.clone()).collect()
}

#[test]
fn folder_tree_merges_paths() {
    let paths = vec![
        "work/projects/a".to_string(),
        "personal".to_string(),
        "work/notes".to_string(),
        "/work//projects/b/".to_string(),
    ];
    let tree = build_folder_tree(&paths);
    assert_eq!(names(&tree), vec!["work", "personal"]);
    assert_eq!(tree[0].path, "work");
    assert_eq!(names(&tree[0].children), vec!["projects", "notes"]);
    assert_eq!(tree[0].children[0].path, "work/projects");
    assert_eq!(names(&tree[0].children[0].children), vec!["a", "b"]);
    assert_eq!(tree[0].children[0].children[1].path, "work/projects/b");
    assert!(tree[1].children.is_empty());
}

#[test]
fn add_to_tree_under_a_prefix() {
    let mut nodes: Vec<FolderDto> = Vec::new();
    add_to_tree(&mut nodes, &["x".to_string(), "y".to_string()], "root");
    assert_eq!(nodes[0].path, "root/x");
    assert_eq!(nodes[0].children[0].path, "root/x/y");
    add_to_tree(&mut nodes, &[], "root");
    assert_eq!(nodes.len(), 1);
}

#[test]
fn folder_moves_and_renames() {
    assert_eq!(renamed_folder_path("work/old", "new"), "work/new");
    assert_eq!(renamed_folder_path("old", "new"), "new");
    assert_eq!(moved_folder_path("/vault", "work/projects", ""), Some("projects".to_string()));
    assert_eq!(moved_folder_path("/vault", "work/projects", "archive//"), Some("archive/projects".to_string()));
    assert_eq!(moved_folder_path("/vault", "..", "x"), None);
    assert_eq!(relocated_note_path("work/old/a.md", "work/old", "work/new"), Some("work/new/a.md".to_string()));
    assert_eq!(relocated_note_path("work/old", "work/old", "work/new"), Some("work/new".to_string()));
    assert_eq!(relocated_note_path("work/older/a.md", "work/old", "work/new"), None);
}

#[test]
fn markdown_documents_frame_the_frontmatter() {
    assert_eq!(markdown_document("id: x\ntitle: T\n", "Body"), "---\nid: x\ntitle: T\n---\nBody");
}

#[test]
fn conflicts_are_archived_by_id_and_time() {
    assert_eq!(archive_file_name("ID", 1779246000), "ID_1779246000.md");
    assert_eq!(archive_file_name("ID", -5), "ID_-5.md");
    let mut note = blank_note_with("01H7V18105M5MWRB28Z1220000", at(1));
    note.title = "Local Title".to_string();
    note.file_path = "work/01H7V18105M5MWRB28Z1220000.md".to_string();
    let (name, entry) = new_conflict(&note, 1779246000, at(1779246000));
    assert_eq!(name, "01H7V18105M5MWRB28Z1220000_1779246000.md");
    assert_eq!(entry.archived_path, ".noda/conflicts/01H7V18105M5MWRB28Z1220000_1779246000.md");
    assert_eq!(entry.relative_path, "work/01H7V18105M5MWRB28Z1220000.md");
    assert_eq!(entry.local_title, "Local Title");
}

#[test]
fn archived_conflicts_are_listed() {
    let name = "01H7V18105M5MWRB28Z1220000_1779246000.md";
    let stem = "01H7V18105M5MWRB28Z1220000_1779246000";
    let e = listed_conflict(name, stem, "/vault", None, None, at(7)).unwrap();
    assert_eq!(e.note_id.0, "01H7V18105M5MWRB28Z1220000");
    assert_eq!(e.relative_path, "01H7V18105M5MWRB28Z1220000.md");
    assert_eq!(e.local_title, "Conflict Note");
    assert_eq!(e.detected_at.secs, 1779246000);
    assert_eq!(e.archived_path, ".noda/conflicts/01H7V18105M5MWRB28Z1220000_1779246000.md");
    let f = listed_conflict(name, stem, "/vault", Some("/vault/work/x.md".to_string()), Some("T".to_string()), at(7)).unwrap();
    assert_eq!(f.relative_path, "work/x.md");
    assert_eq!(f.local_title, "T");
    let g = listed_conflict("01H7V18105M5MWRB28Z1220000_later.md", "01H7V18105M5MWRB28Z1220000_later", "/vault", None, None, at(7)).unwrap();
    assert_eq!(g.detected_at.secs, 0);
    assert!(listed_conflict("notanid_1.md", "notanid_1", "/vault", None, None, at(7)).is_none());
    assert!(listed_conflict("01H7V18105M5MWRB28Z1220000.md", "01H7V18105M5MWRB28Z1220000", "/vault", None, None, at(7)).is_none());

    let ordered = order_conflicts(vec![e, f, g]);
    assert_eq!(ordered[0].detected_at.secs, 1779246000);
    assert_eq!(ordered[2].detected_at.secs, 0);
}

#[test]
fn conflict_resolution_takes_the_newest() {
    assert_eq!(conflict_time("ID_5.md", "ID_5", "ID"), Some(5));
    assert_eq!(conflict_time("ID_x.md", "ID_x", "ID"), Some(0));
    assert_eq!(conflict_time("OTHER_5.md", "OTHER_5", "ID"), None);
    assert_eq!(conflict_time("ID_5.txt", "ID_5", "ID"), None);
    assert_eq!(latest_conflict(&vec![3, 9, 9, 1]), Some(1));
    assert_eq!(latest_conflict(&vec![]), None);
}

#[test]
fn cold_scan_decisions() {
    assert!(is_walk_visible("notes"));
    assert!(is_walk_visible(".templates"));
    assert!(!is_walk_visible(".noda"));
    let rec = Some(RecordedFile { size: 10, local_updated_at: Some("2026-05-20T03:00:00Z".to_string()) });
    assert!(!check_file_mismatch(&rec, 10, at(1779246001)));
    assert!(check_file_mismatch(&rec, 10, at(1779246002)));
    assert!(check_file_mismatch(&rec, 11, at(1779246000)));
    assert!(check_file_mismatch(&None, 10, at(1779246000)));
    let bad = Some(RecordedFile { size: 10, local_updated_at: Some("yesterday".to_string()) });
    assert!(check_file_mismatch(&bad, 10, at(1779246000)));
    assert_eq!(mismatch_action("work/a.md"), MismatchAction::ReindexNote);
    assert_eq!(mismatch_action(".noda/history/a.md"), MismatchAction::MarkDirty);
    assert_eq!(mismatch_action(".noda/attachments/p.png"), MismatchAction::MarkDirty);
    assert_eq!(tracked_action("x/.DS_Store", false, false), TrackedAction::Purge);
    assert_eq!(tracked_action("a/.hidden/b.md", true, false), TrackedAction::Purge);
    assert_eq!(tracked_action(".noda/sync/queue.json", false, false), TrackedAction::Keep);
    assert_eq!(tracked_action(".noda/vault_config.json", false, true), TrackedAction::Keep);
    assert_eq!(tracked_action(".noda/vault_config.json", false, false), TrackedAction::MarkDirty);
    assert_eq!(tracked_action("gone.md", false, false), TrackedAction::DeleteNote);
    assert_eq!(tracked_action("here.md", true, false), TrackedAction::Keep);
}

#[test]
fn remote_tree_walk_decisions() {
    assert_eq!(tree_root("dav/vault"), "/dav/vault");
    assert_eq!(tree_root("/dav/vault"), "/dav/vault");
    assert_eq!(entry_path("/dav/vault/note1.md", "/dav"), "/vault/note1.md");
    assert_eq!(entry_path("/other/x.md", "/dav"), "/other/x.md");
    assert!(is_tree_visible("/vault/note1.md"));
    assert!(is_tree_visible("/.noda"));
    assert!(is_tree_visible("/.noda/attachments/p.png"));
    assert!(!is_tree_visible("/.noda/sync/x.json"));
    assert!(!is_tree_visible("/vault/.git/config"));

    let own = RemoteEntry { href: "/dav/vault/".to_string(), is_collection: true, last_modified: None, size: None, etag: None };
    assert!(tree_step("http://h/dav/vault", "/dav", own).is_none());
    let folder = RemoteEntry { href: "/dav/vault/folder1/".to_string(), is_collection: true, last_modified: None, size: None, etag: None };
    let (e, descend) = tree_step("http://h/dav/vault", "/dav", folder).unwrap();
    assert_eq!(e.href, "/vault/folder1");
    assert!(descend);
}

#[test]
fn note_metadata_counts_words_and_characters() {
    let mut note = blank_note_with("01H7V18105M5MWRB28Z1220000", at(1));
    note.body = "Hello  wide\nworld ö".to_string();
    let mut state = RemoteState::new();
    state.insert_file(
        "01H7V18105M5MWRB28Z1220000.md".to_string(),
        RemoteFileMetadata { etag: None, last_modified: Some(at(1779246000)), size: 1, local_updated_at: None, hash: String::new(), is_dirty: false },
    );
    let dto = note_metadata_dto(&note, "/vault/01H7V18105M5MWRB28Z1220000.md", 3, &state, 42);
    assert_eq!(dto.word_count, 4);
    assert_eq!(dto.char_count, 19);
    assert_eq!(dto.file_name, "01H7V18105M5MWRB28Z1220000.md");
    assert_eq!(dto.history_count, 3);
    assert_eq!(dto.file_size_bytes, 42);
    assert_eq!(dto.last_upload_time, Some("2026-05-20T03:00:00+00:00".to_string()));
}

#[test]
fn notes_created_and_edited_in_the_app() {
    let n = created_note("ID", "Title".to_string(), vec!["t".to_string()], &Some("work/".to_string()), at(5));
    assert_eq!(n.file_path, "work/ID.md");
    assert_eq!(n.body, "");
    assert_eq!(n.status, "active");
    let root = created_note("ID", "Title".to_string(), vec![], &None, at(5));
    assert_eq!(root.file_path, "ID.md");
    let e = edited_note(&n, "New".to_string(), "Body #tag".to_string(), Some("red".to_string()), true, vec![], at(9));
    assert_eq!(e.title, "New");
    assert_eq!(e.inline_tags, vec!["tag".to_string()]);
    assert_eq!(e.file_path, "work/ID.md");
    assert_eq!(e.created_at.secs, 5);
    assert_eq!(e.updated_at.secs, 9);
    let a = adopted_remote(e, "other/ID.md".to_string(), at(11));
    assert_eq!(a.file_path, "other/ID.md");
    assert_eq!(a.updated_at.secs, 11);
}

#[test]
fn conflict_times_beyond_chrono_range_fall_back_to_now() {
    let id = "01H7V18105M5MWRB28Z1220000";
    let listed = |secs: &str| {
        let stem = format!("{}_{}", id, secs);
        listed_conflict(&format!("{}.md", stem), &stem, "/vault", None, None, at(7)).unwrap().detected_at.secs
    };
    assert_eq!(listed("8210266876799"), 8210266876799);
    assert_eq!(listed("8210266876800"), 7);
    assert_eq!(listed("-8334601228800"), -8334601228800);
    assert_eq!(listed("-8334601228801"), 7);
}
