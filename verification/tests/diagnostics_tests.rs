use noda_core::diagnostics::{
    check_attachment_name, check_duplicate_path, check_remnant_path, conflict_remnant_name, conflict_remnant_title,
    history_remnant_name, history_remnant_title, is_known_note, orphaned_attachments, NoteText, OrphanedAttachment,
    OrphanedFile, OrphanedRemnants,
};
use noda_core::errors::NodaError;

const ID: &str = "01H7V18105M5MWRB28Z1220000";

#[test]
fn unreferenced_attachments_are_orphaned() {
    let files = vec![
        OrphanedAttachment { filename: "xxh3_attachmentA.png".to_string(), size_bytes: 19 },
        OrphanedAttachment { filename: "xxh3_attachmentB.png".to_string(), size_bytes: 19 },
    ];
    let notes = vec![NoteText {
        title: "A Note".to_string(),
        body: "This references noda://attachments/xxh3_attachmentA.png".to_string(),
    }];
    let orphaned = orphaned_attachments(&files, &notes);
    assert_eq!(orphaned.len(), 1);
    assert_eq!(orphaned[0].filename, "xxh3_attachmentB.png");
    assert_eq!(orphaned[0].size_bytes, 19);
    let in_title = vec![NoteText { title: "see xxh3_attachmentB.png".to_string(), body: String::new() }];
    assert_eq!(orphaned_attachments(&orphaned, &in_title).len(), 0);
}

#[test]
fn deletions_that_could_escape_are_refused() {
    assert!(check_attachment_name("xxh3_a.png").is_ok());
    match check_attachment_name("../secret") {
        Err(NodaError::PathTraversal(m)) => assert_eq!(m, "Path traversal attempt detected in filename: ../secret"),
        other => panic!("unexpected {:?}", other),
    }
    assert!(check_attachment_name("..").is_err());
    assert!(check_attachment_name("a\\b").is_err());
    assert!(check_duplicate_path("work/note.md").is_ok());
    match check_duplicate_path("../x.md") {
        Err(NodaError::PathTraversal(m)) => assert_eq!(m, "Invalid relative path: ../x.md"),
        other => panic!("unexpected {:?}", other),
    }
    match check_remnant_path(".noda\\history\\x.md") {
        Err(NodaError::PathTraversal(m)) => assert_eq!(m, "Invalid remnant file path: .noda\\history\\x.md"),
        other => panic!("unexpected {:?}", other),
    }
}

#[test]
fn history_remnants_are_named_and_titled() {
    let name = format!("{}_20240102-030405_Manual.md", ID);
    let h = history_remnant_name(&name).unwrap();
    assert_eq!(h.note_id, ID);
    assert_eq!(h.id_text, ID);
    assert_eq!(h.date_text, "20240102-030405");
    assert!(history_remnant_name("notes_only.md").is_none());
    assert!(history_remnant_name("bad_20240102-030405_Manual.md").is_none());
    assert_eq!(
        history_remnant_title(&None, ID, &Some("2024-01-02 03:04:05".to_string())),
        format!("History Snapshot ({}) (Geçmiş: 2024-01-02 03:04:05)", ID)
    );
    assert_eq!(history_remnant_title(&Some("Plan".to_string()), ID, &None), "Plan");
}

#[test]
fn conflict_remnants_are_named_and_titled() {
    let (id, secs) = conflict_remnant_name(&format!("{}_123456789", ID)).unwrap();
    assert_eq!(id, ID);
    assert_eq!(secs, Some(123_456_789));
    assert_eq!(conflict_remnant_name(&format!("{}_x", ID)).unwrap().1, None);
    assert!(conflict_remnant_name("nope_1").is_none());
    assert_eq!(conflict_remnant_title(&None, Some(1_700_000_000)), "Conflict Version (Çakışma: 2023-11-14 22:13:20)");
    assert_eq!(conflict_remnant_title(&Some("Mine".to_string()), None), "Mine");
}

#[test]
fn remnants_add_up_their_sizes() {
    let mut r = OrphanedRemnants::new();
    let file = |path: &str, size: u64, kind: &str| OrphanedFile {
        relative_path: path.to_string(),
        title: "t".to_string(),
        size_bytes: size,
        last_modified: String::new(),
        file_type: kind.to_string(),
    };
    r.add(file(".noda/history/a.md", 10, "history"));
    r.add(file(".noda/conflicts/b.md", 16, "conflict"));
    assert_eq!(r.files.len(), 2);
    assert_eq!(r.total_recovered_bytes, 26);
    assert!(is_known_note(&vec![ID.to_string()], ID));
    assert!(!is_known_note(&vec![], ID));
}
