use noda_core::delta::{calculate_delta, calculate_raw_delta, LocalNote, LocalRawFile, SyncAction};
use noda_core::models::{RemoteEntry, RemoteFileMetadata, RemoteState};
use noda_core::notes::blank_note_with;
use noda_core::models::Note;
use noda_core::paths::{get_relative_path, normalize_path, percent_decode};
use noda_core::time::{parse_last_modified, Timestamp};

const MAY_20_03H: i64 = 1779246000;
const MAY_20_04H: i64 = 1779249600;
const MAY_20_05H: i64 = 1779253200;

fn at(secs: i64) -> Timestamp {
    Timestamp { secs, nanos: 0 }
}

fn meta(etag: &str, time: i64, size: u64) -> RemoteFileMetadata {
    RemoteFileMetadata {
        etag: Some(etag.to_string()),
        last_modified: Some(at(time)),
        size,
        local_updated_at: Some(at(time)),
        hash: String::new(),
        is_dirty: false,
    }
}

fn remote_file(href: &str, modified: &str, size: u64, etag: &str) -> RemoteEntry {
    RemoteEntry {
        href: href.to_string(),
        is_collection: false,
        last_modified: Some(modified.to_string()),
        size: Some(size),
        etag: Some(etag.to_string()),
    }
}

fn relative_of(a: &SyncAction) -> &str {
    match a {
        SyncAction::Upload { relative_path } => relative_path,
        SyncAction::Download { relative_path, .. } => relative_path,
        SyncAction::DeleteRemote { relative_path } => relative_path,
        SyncAction::DeleteLocal { relative_path } => relative_path,
        SyncAction::Conflict { relative_path, .. } => relative_path,
    }
}

#[test]
fn test_parse_last_modified() {
    let parsed = parse_last_modified("Wed, 20 May 2026 03:00:00 GMT").unwrap();
    assert_eq!(parsed.secs, MAY_20_03H);
    assert_eq!(parsed.nanos, 0);

    let parsed3339 = parse_last_modified("2026-05-20T03:00:00Z").unwrap();
    assert_eq!(parsed3339.secs, MAY_20_03H);
}

#[test]
fn parse_last_modified_rejects_other_text() {
    assert!(parse_last_modified("yesterday").is_none());
    assert!(parse_last_modified("").is_none());
}

#[test]
fn test_get_relative_path() {
    assert_eq!(get_relative_path("/vault/note.md", "/vault"), "note.md");
    assert_eq!(
        get_relative_path("/vault/.noda/attachments/pic.png", "/vault"),
        ".noda/attachments/pic.png"
    );
}

#[test]
fn get_relative_path_outside_root_loses_leading_slashes() {
    assert_eq!(get_relative_path("/other/note.md", "/vault"), "other/note.md");
    assert_eq!(get_relative_path("/vault", "/vault"), "/");
    assert_eq!(get_relative_path("https://example.com/dav/vault/My%20Note.md", "/dav/vault/"), "My Note.md");
}

#[test]
fn test_percent_decode() {
    assert_eq!(percent_decode("hello%20world"), "hello world");
    assert_eq!(percent_decode("hello%2Fworld"), "hello/world");
    assert_eq!(percent_decode("no_percent"), "no_percent");
    assert_eq!(percent_decode("%invalid"), "%invalid");
}

#[test]
fn percent_decode_multibyte() {
    assert_eq!(percent_decode("G%C3%B6l"), "Göl");
    assert_eq!(percent_decode("a%2"), "a%2");
}

#[test]
fn test_normalize_path() {
    assert_eq!(normalize_path("https://example.com/dav/vault/"), "/dav/vault");
    assert_eq!(normalize_path("/dav/vault/"), "/dav/vault");
    assert_eq!(normalize_path("///dav//vault//"), "/dav/vault");
    assert_eq!(
        normalize_path("https://example.com/dav/vault/My%20Note.md"),
        "/dav/vault/My Note.md"
    );
    assert_eq!(normalize_path("https://example.com/"), "/");
    assert_eq!(normalize_path(""), "/");
}

#[test]
fn test_calculate_raw_delta() {
    let stamp = "2026-05-20T03:00:00+00:00";
    let local_raw = vec![LocalRawFile {
        relative_path: ".noda/attachments/pic.png".to_string(),
        size: 100,
        modified: at(MAY_20_03H),
    }];
    let remote_entries = vec![
        remote_file("/vault/.noda/attachments/pic.png", stamp, 100, "hash"),
        remote_file("/vault/.noda/attachments/new_remote.png", stamp, 200, "hash2"),
    ];
    let mut previous_state = RemoteState::new();
    previous_state.insert_file(".noda/attachments/pic.png".to_string(), meta("hash", MAY_20_03H, 100));

    let plan = calculate_raw_delta(&local_raw, &remote_entries, &previous_state, "/vault");

    assert_eq!(plan.actions.len(), 1);
    match &plan.actions[0] {
        SyncAction::Download { relative_path, .. } => {
            assert_eq!(relative_path, ".noda/attachments/new_remote.png");
        }
        _ => panic!("Expected Download action"),
    }
}

#[test]
fn test_calculate_delta_upload_new_local() {
    let note = Note::new();
    let id = note.id.0.clone();
    let previous = RemoteState::new();

    let plan = calculate_delta(&[LocalNote { note, markdown_size: 120 }], &[], &previous, "/vault");

    assert_eq!(plan.actions.len(), 1);
    match &plan.actions[0] {
        SyncAction::Upload { relative_path } => {
            assert_eq!(relative_path, &format!("{}.md", id));
        }
        _ => panic!("Expected Upload action"),
    }
}

#[test]
fn test_calculate_delta_download_new_remote() {
    let id = Note::new().id.0;
    let path = format!("{}.md", id);
    let remote = remote_file(&format!("/vault/{}", path), "Wed, 20 May 2026 03:00:00 GMT", 100, "etag1");

    let previous = RemoteState::new();
    let plan = calculate_delta(&[], &[remote], &previous, "/vault");

    assert_eq!(plan.actions.len(), 1);
    match &plan.actions[0] {
        SyncAction::Download { relative_path, .. } => {
            assert_eq!(relative_path, &path);
        }
        _ => panic!("Expected Download action"),
    }
}

#[test]
fn test_calculate_delta_conflict() {
    let id = Note::new().id.0;
    let path = format!("{}.md", id);

    let mut local_note = blank_note_with(&id, at(MAY_20_03H));
    local_note.title = "Modified Local".to_string();
    local_note.body = "test body".to_string();
    local_note.updated_at = at(MAY_20_04H);

    let remote = remote_file(&format!("/vault/{}", path), "Wed, 20 May 2026 05:00:00 GMT", 250, "etag-new");

    let mut previous = RemoteState::new();
    previous.insert_file(path.clone(), meta("etag-old", MAY_20_03H, 150));

    let plan = calculate_delta(&[LocalNote { note: local_note, markdown_size: 180 }], &[remote], &previous, "/vault");

    assert_eq!(plan.actions.len(), 1);
    match &plan.actions[0] {
        SyncAction::Conflict { relative_path, .. } => {
            assert_eq!(relative_path, &path);
        }
        _ => panic!("Expected Conflict action"),
    }
}

#[test]
fn delta_deletes_remote_copy_of_a_locally_deleted_note() {
    let id = Note::new().id.0;
    let path = format!("{}.md", id);
    let remote = remote_file(&format!("/vault/{}", path), "Wed, 20 May 2026 03:00:00 GMT", 150, "etag-old");
    let mut previous = RemoteState::new();
    previous.insert_file(path.clone(), meta("etag-old", MAY_20_03H, 150));

    let plan = calculate_delta(&[], &[remote], &previous, "/vault");
    assert_eq!(plan.actions.len(), 1);
    assert!(matches!(&plan.actions[0], SyncAction::DeleteRemote { .. }));
    assert_eq!(relative_of(&plan.actions[0]), path);
}

#[test]
fn delta_deletes_local_copy_of_a_remotely_deleted_note() {
    let id = Note::new().id.0;
    let path = format!("{}.md", id);
    let note = blank_note_with(&id, at(MAY_20_03H));
    let mut previous = RemoteState::new();
    previous.insert_file(path.clone(), meta("etag-old", MAY_20_03H, 150));

    let plan = calculate_delta(&[LocalNote { note, markdown_size: 150 }], &[], &previous, "/vault");
    assert_eq!(plan.actions.len(), 1);
    assert!(matches!(&plan.actions[0], SyncAction::DeleteLocal { .. }));
    assert_eq!(relative_of(&plan.actions[0]), path);
}

#[test]
fn delta_of_unchanged_note_is_empty() {
    let id = Note::new().id.0;
    let path = format!("{}.md", id);
    let note = blank_note_with(&id, at(MAY_20_03H));
    let remote = remote_file(&format!("/vault/{}", path), "Wed, 20 May 2026 03:00:00 GMT", 150, "etag-old");
    let mut previous = RemoteState::new();
    previous.insert_file(path.clone(), meta("etag-old", MAY_20_03H, 150));

    let plan = calculate_delta(&[LocalNote { note, markdown_size: 150 }], &[remote], &previous, "/vault");
    assert_eq!(plan.actions.len(), 0);
}

#[test]
fn raw_delta_uploads_new_local_file_and_ignores_notes() {
    let local_raw = vec![LocalRawFile {
        relative_path: ".noda/history/a.md".to_string(),
        size: 10,
        modified: at(MAY_20_03H),
    }];
    let remote_entries = vec![remote_file("/vault/note.md", "Wed, 20 May 2026 03:00:00 GMT", 5, "x")];
    let previous = RemoteState::new();
    let plan = calculate_raw_delta(&local_raw, &remote_entries, &previous, "/vault");
    assert_eq!(plan.actions.len(), 1);
    assert!(matches!(&plan.actions[0], SyncAction::Upload { .. }));
    assert_eq!(relative_of(&plan.actions[0]), ".noda/history/a.md");
}

#[test]
fn remote_state_insert_then_find() {
    let mut state = RemoteState::new();
    state.insert_file("a.md".to_string(), meta("e1", MAY_20_03H, 1));
    state.insert_file("a.md".to_string(), meta("e2", MAY_20_05H, 2));
    assert_eq!(state.files.len(), 1);
    let i = state.find_file("a.md").unwrap();
    assert_eq!(state.files[i].meta.size, 2);
    state.remove_file("a.md");
    assert!(state.find_file("a.md").is_none());
}

#[test]
fn propfind_responses_become_entries() {
    let xml = [
        "<?xml version=\"1.0\" encoding=\"utf-8\"?>\n",
        "<d:multistatus xmlns:d=\"DAV:\">\n",
        "  <d:response>\n",
        "    <d:href>/dav/vault/</d:href>\n",
        "    <d:propstat>\n",
        "      <d:prop>\n",
        "        <d:resourcetype><d:collection/></d:resourcetype>\n",
        "      </d:prop>\n",
        "      <d:status>HTTP/1.1 200 OK</d:status>\n",
        "    </d:propstat>\n",
        "  </d:response>\n",
        "  <d:response>\n",
        "    <d:href>/dav/vault/note1.md</d:href>\n",
        "    <d:propstat>\n",
        "      <d:prop>\n",
        "        <d:resourcetype/>\n",
        "        <d:getcontentlength>123</d:getcontentlength>\n",
        "        <d:getlastmodified>Wed, 20 May 2026 03:00:00 GMT</d:getlastmodified>\n",
        "        <d:getetag>\"abc\"</d:getetag>\n",
        "      </d:prop>\n",
        "      <d:status>HTTP/1.1 200 OK</d:status>\n",
        "    </d:propstat>\n",
        "  </d:response>\n",
        "</d:multistatus>",
    ]
    .concat();
    let entries = noda_core::webdav::parse_propfind(&xml).unwrap();
    assert_eq!(entries.len(), 2);
    assert_eq!(entries[0].href, "/dav/vault/");
    assert!(entries[0].is_collection);
    assert_eq!(entries[1].href, "/dav/vault/note1.md");
    assert!(!entries[1].is_collection);
    assert_eq!(entries[1].size, Some(123));
    assert_eq!(entries[1].etag.as_deref(), Some("\"abc\""));
    assert_eq!(entries[1].last_modified.as_deref(), Some("Wed, 20 May 2026 03:00:00 GMT"));
}

#[test]
fn propfind_rejects_broken_xml() {
    assert!(matches!(
        noda_core::webdav::parse_propfind("<d:multistatus><d:response></d:multistatus>"),
        Err(noda_core::errors::NodaError::Sync(_))
    ));
}
