use noda_core::diagnostics::{orphaned_remnants, ListedFile};
use noda_core::history::listed_snapshots;
use noda_core::time::{rfc3339_of, Timestamp};
use noda_core::delta::SyncAction;
use noda_core::engine::{action_step, peer_removed_paths, step_outcome, Outcome, StepEvent, StepPlan};
use noda_core::models::RemoteEntry;

const A: &str = "01H7V18105M5MWRB28Z1220000";
const B: &str = "01H7V18105M5MWRB28Z1220001";
const K: &str = "01H7V18105M5MWRB28Z1220002";

fn file(name: &str, size: u64, title: Option<&str>) -> ListedFile {
    ListedFile { name: name.to_string(), size_bytes: size, modified: Timestamp { secs: 0, nanos: 0 }, front_title: title.map(|t| t.to_string()) }
}

#[test]
fn snapshots_are_listed_newest_first_from_their_names() {
    let paths = vec![
        format!("/v/.noda/history/{}_20240101-120000_manual.md", A),
        format!("/v/.noda/history/{}_20240101-120001-500_auto.md", A),
        format!("/v/.noda/history/{}_20240101-120002_manual.md", B),
        format!("/v/.noda/history/{}_notadate_manual.md", A),
        format!("/v/.noda/history/{}_20240101-120003_manual.txt", A),
    ];
    let listed = listed_snapshots(&paths, A);
    assert_eq!(listed.len(), 2);
    assert_eq!(listed[0].absolute_path, paths[1]);
    assert_eq!(listed[0].reason, "auto");
    assert_eq!(listed[1].absolute_path, paths[0]);
    assert_eq!(listed[1].reason, "manual");
    assert_eq!(listed[0].note_id.0, A);
    let gap = (listed[0].timestamp.secs - listed[1].timestamp.secs) * 1000 + (listed[0].timestamp.nanos as i64 - listed[1].timestamp.nanos as i64) / 1_000_000;
    assert_eq!(gap, 1500);
}

#[test]
fn orphaned_remnants_of_unknown_notes_are_listed() {
    let history = vec![
        file(&format!("{}_20240101-120000_manual.md", A), 10, None),
        file(&format!("{}_20240101-120000_manual.md", K), 7, None),
        file(&format!("{}_20240101-120000_manual.txt", A), 3, None),
    ];
    let conflicts = vec![file(&format!("{}_1700000000.md", B), 5, Some("T")), file("notes.md", 2, None)];
    let known = vec![K.to_string()];
    let r = orphaned_remnants(&history, &conflicts, &known);
    assert_eq!(r.files.len(), 2);
    assert_eq!(r.total_recovered_bytes, 15);
    assert_eq!(r.files[0].relative_path, format!(".noda/history/{}_20240101-120000_manual.md", A));
    assert!(r.files[0].title.starts_with(&format!("History Snapshot ({}) (Geçmiş: 2024-01-0", A)));
    assert_eq!(r.files[0].file_type, "history");
    assert_eq!(r.files[0].last_modified, "1970-01-01T00:00:00+00:00");
    assert_eq!(r.files[1].relative_path, format!(".noda/conflicts/{}_1700000000.md", B));
    assert_eq!(r.files[1].title, "T (Çakışma: 2023-11-14 22:13:20)");
    assert_eq!(r.files[1].file_type, "conflict");
    assert_eq!(rfc3339_of(Timestamp { secs: 0, nanos: 0 }), "1970-01-01T00:00:00+00:00");
}

#[test]
fn actions_are_carried_out_step_by_step() {
    let entry = || RemoteEntry { href: "/v/x.md".into(), is_collection: false, last_modified: None, size: None, etag: None };
    let up_raw = SyncAction::Upload { relative_path: ".noda/attachments/p.png".into() };
    assert!(matches!(action_step(&up_raw, StepEvent::Begin), StepPlan::PushRaw));
    let up_note = SyncAction::Upload { relative_path: format!("work/{}.md", A) };
    match action_step(&up_note, StepEvent::Begin) {
        StepPlan::PushNote(id) => assert_eq!(id, A),
        other => panic!("unexpected {:?}", other),
    }
    let up_other = SyncAction::Upload { relative_path: "readme.md".into() };
    let skip = action_step(&up_other, StepEvent::Begin);
    assert!(matches!(skip, StepPlan::Skip));
    assert_eq!(step_outcome(&skip), None);
    let down = SyncAction::Download { relative_path: "x.md".into(), remote_entry: entry() };
    assert!(matches!(action_step(&down, StepEvent::Begin), StepPlan::FetchRemote));
    assert!(matches!(action_step(&down, StepEvent::RemoteRead), StepPlan::StoreNote));
    let gone = action_step(&down, StepEvent::RemoteMissing);
    assert!(matches!(gone, StepPlan::Forget));
    assert_eq!(step_outcome(&gone), None);
    let del = SyncAction::DeleteLocal { relative_path: ".noda/history/h.md".into() };
    assert!(matches!(action_step(&del, StepEvent::Begin), StepPlan::RemoveLocal(false)));
    let del_note = SyncAction::DeleteLocal { relative_path: "n.md".into() };
    let rl = action_step(&del_note, StepEvent::Begin);
    assert!(matches!(rl, StepPlan::RemoveLocal(true)));
    assert_eq!(step_outcome(&rl), Some(Outcome::DeletedLocal));
    let conflict = SyncAction::Conflict { relative_path: "x.md".into(), local_note: noda_core::notes::blank_note_with(A, Timestamp { secs: 0, nanos: 0 }), remote_entry: entry() };
    let archived = action_step(&conflict, StepEvent::RemoteRead);
    assert!(matches!(archived, StepPlan::ArchiveAndPush));
    assert_eq!(step_outcome(&archived), Some(Outcome::ConflictArchived));
    let pushed = action_step(&conflict, StepEvent::RemoteMissing);
    assert!(matches!(pushed, StepPlan::PushOnly));
    assert_eq!(step_outcome(&pushed), None);
}

#[test]
fn a_peer_seen_first_deletes_nothing() {
    assert!(peer_removed_paths(&vec![], &vec!["a.md".to_string()]).is_empty());
    assert_eq!(peer_removed_paths(&vec!["a.md".to_string(), "b.md".to_string()], &vec!["a.md".to_string()]), vec!["b.md".to_string()]);
}
