use noda_core::dtos::{list_item_dto, note_dto, settings_dto, sync_report_dto, vault_info_dto};
use noda_core::engine::{Outcome, SyncReport};
use noda_core::history::age_cutoff;
use noda_core::models::{Note, NoteId};
use noda_core::notes::{blank_note_with, note_from_content, replace_frontmatter, Frontmatter};
use noda_core::settings::AppConfig;
use noda_core::time::Timestamp;
use noda_core::vault::Vault;

const ID: &str = "01H7V18105M5MWRB28Z1220000";

fn at(secs: i64) -> Timestamp {
    Timestamp { secs, nanos: 0 }
}

fn sample() -> Note {
    let mut n = blank_note_with(ID, at(1_700_000_000));
    n.title = "Groceries".to_string();
    n.body = "milk".to_string();
    n.tags = vec!["home".to_string()];
    n.parent_id = Some(NoteId("01H7V18105M5MWRB28Z1220001".to_string()));
    n
}

#[test]
fn note_dtos_copy_fields_and_format_times() {
    let n = sample();
    let d = note_dto(&n);
    assert_eq!(d.id, ID);
    assert_eq!(d.parent_id.as_deref(), Some("01H7V18105M5MWRB28Z1220001"));
    assert_eq!(d.title, "Groceries");
    assert_eq!(d.body, "milk");
    assert_eq!(d.tags, vec!["home".to_string()]);
    assert_eq!(d.created_at, "2023-11-14T22:13:20+00:00");
    assert_eq!(d.file_path, format!("{}.md", ID));
    let item = list_item_dto(&n);
    assert_eq!(item.title, "Groceries");
    assert_eq!(item.updated_at, "2023-11-14T22:13:20+00:00");
}

#[test]
fn vault_and_report_dtos() {
    let v = Vault::new("/home/me/Notes".to_string());
    let info = vault_info_dto(&v);
    assert_eq!(info.name, "Notes");
    assert_eq!(info.path, "/home/me/Notes");
    let mut r = SyncReport::new();
    r.record(Outcome::Uploaded, "a.md".to_string());
    r.record(Outcome::ConflictArchived, "b.md".to_string());
    let d = sync_report_dto(&r);
    assert_eq!(d.uploads, 1);
    assert_eq!(d.conflicts, 1);
    assert_eq!(d.downloads, 0);
    assert_eq!(d.uploaded_files, vec!["a.md".to_string()]);
    assert_eq!(d.conflict_files, vec!["b.md".to_string()]);
}

#[test]
fn settings_dto_mirrors_defaults() {
    let d = settings_dto(&AppConfig::default());
    assert_eq!(d.appearance.theme, "dark");
    assert_eq!(d.editor.font_size, 14);
    assert_eq!(d.history.retention_days, 30);
    assert_eq!(d.sync.webdav_url, "");
}

#[test]
fn pasted_markdown_becomes_a_note_under_its_directory() {
    let n = note_from_content("Pasted", None, "hello", "inbox/", ID, at(5));
    assert_eq!(n.title, "Pasted");
    assert_eq!(n.body, "hello");
    assert_eq!(n.file_path, format!("inbox/{}.md", ID));
    assert_eq!(n.created_at.secs, 5);
    let front = Frontmatter {
        id: NoteId("01H7V18105M5MWRB28Z1229999".to_string()),
        parent_id: Some(NoteId("01H7V18105M5MWRB28Z1220001".to_string())),
        title: String::new(),
        color: None,
        pinned: true,
        tags: vec![],
        status: "active".to_string(),
        created_at: at(1),
        updated_at: at(2),
        is_encrypted: false,
        dek_encrypted: None,
        dek_nonce: None,
    };
    let m = note_from_content("Fallback", Some(front), "---\ntitle: ''\n---\nbody", "", ID, at(5));
    assert_eq!(m.id.0, ID);
    assert_eq!(m.title, "Fallback");
    assert!(m.parent_id.is_none());
    assert!(m.pinned);
    assert_eq!(m.body, "body");
    assert_eq!(m.created_at.secs, 1);
    assert_eq!(m.file_path, format!("{}.md", ID));
}

#[test]
fn frontmatter_is_replaced_and_body_kept() {
    let text = "---\ntitle: Old\n---\nThe body\n";
    assert_eq!(replace_frontmatter("title: New\n", text), "---\ntitle: New\n---\nThe body");
}

#[test]
fn age_cutoff_goes_back_whole_days() {
    let c = age_cutoff(Timestamp { secs: 1_000_000, nanos: 7 }, 2);
    assert_eq!(c.secs, 1_000_000 - 2 * 86_400);
    assert_eq!(c.nanos, 7);
}
