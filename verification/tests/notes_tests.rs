use noda_core::clipper::{article_markdown, fetched_markdown, sanitize_title};
use noda_core::crypto::{
    begin_password_change, decrypt_note, default_timeout_setting, encrypt_note, finish_password_change, register_password,
    reseal_note_key, timeout_limit_secs, unlock_with_password, Session,
};
use noda_core::diagnostics::{duplicate_groups, ScannedNote};
use noda_core::errors::{AppError, NodaError};
use noda_core::history::{
    compare_bodies, find_snapshot_at, order_snapshots, parse_snapshot_name, retention_victims, snapshot_file_name,
    Snapshot,
};
use noda_core::models::NoteId;
use noda_core::notes::blank_note_with;
use noda_core::models::Note;
use noda_core::search::{build_fts5_query, deaccent, highlight_match};
use noda_core::tasks::{fill_daily_template, toggle_task};
use noda_core::time::Timestamp;
use noda_core::trash::{complete_listed, new_trash_entry, order_trash, original_path, TrashEntry};
use noda_core::ulid::{is_ulid, parse_ulid};

fn at(secs: i64) -> Timestamp {
    Timestamp { secs, nanos: 0 }
}

#[test]
fn test_note_id_generation() {
    let id1 = Note::new().id;
    let id2 = Note::new().id;
    assert_ne!(id1.0, id2.0);
    assert!(is_ulid(&id1.0));
}

#[test]
fn test_note_instantiation() {
    let note = Note::new();
    assert_ne!(note.id.0, "00000000000000000000000000");
    assert_eq!(note.title, "");
    assert_eq!(note.body, "");
    assert!(!note.pinned);
    assert!(note.parent_id.is_none());
    assert!(note.color.is_none());
    assert_eq!(note.status, "active");
    assert_eq!(note.file_path, format!("{}.md", note.id.0));
}

#[test]
fn note_markdown_frames_frontmatter_and_body() {
    let mut note = Note::new();
    note.body = "Hello #world".to_string();
    assert_eq!(note.to_markdown("title: T\n"), "---\ntitle: T\n---\nHello #world");
}

#[test]
fn inline_tags_skip_code_and_repeats() {
    let tags = Note::parse_inline_tags("#rust and #rust again\n```\n#hidden\n```\nuse `#code` #42 #tag-1");
    assert_eq!(tags, vec!["rust".to_string(), "tag-1".to_string()]);
}

#[test]
fn ulid_text_is_canonical() {
    assert!(is_ulid("01H7V18105M5MWRB28Z1220000"));
    assert!(!is_ulid("not-a-ulid"));
    assert_eq!(parse_ulid("01h7v18105m5mwrb28z1220000"), Some("01H7V18105M5MWRB28Z1220000".to_string()));
    assert_eq!(parse_ulid("xyz"), None);
}

#[test]
fn deaccent_folds_turkish_letters() {
    assert_eq!(deaccent("Göl"), "gol");
    assert_eq!(deaccent("ÇÖL ve göl"), "col ve gol");
    assert_eq!(deaccent("İstanbul Şişli"), "istanbul sisli");
}

#[test]
fn highlight_marks_first_match() {
    assert_eq!(
        highlight_match("Rust is a systems programming language that runs blazingly fast.", "fast"),
        Some("...runs blazingly <b>fast</b>.".to_string())
    );
    assert_eq!(
        highlight_match("çöl ve göl kelimeleri test ediliyor.", "gol"),
        Some("çöl ve <b>göl</b> kelimeleri tes...".to_string())
    );
    assert_eq!(highlight_match("abc", ""), None);
    assert_eq!(highlight_match("abc", "xyz"), None);
}

#[test]
fn fts_query_stars_each_word() {
    assert_eq!(build_fts5_query("rust fast"), "rust* fast*");
    assert_eq!(build_fts5_query("  rust   fast "), "rust* fast*");
    assert_eq!(build_fts5_query("rust OR go"), "rust OR go");
    assert_eq!(build_fts5_query("\"exact phrase\""), "\"exact phrase\"");
}

#[test]
fn clip_titles_become_file_names() {
    assert_eq!(sanitize_title("Hello, World!  Foo"), "Hello_World_Foo");
    assert_eq!(sanitize_title("  __a__b__ "), "a_b");
    assert_eq!(sanitize_title("!!!"), "Untitled_Clip");
}

#[test]
fn tasks_toggle() {
    assert_eq!(
        toggle_task("- [ ] Buy milk\n- [ ] Call mom", "Buy milk"),
        Some("- [x] Buy milk\n- [ ] Call mom".to_string())
    );
    assert_eq!(toggle_task("- [x] Done", "done"), Some("- [ ] Done".to_string()));
    assert_eq!(toggle_task("plain text", "plain"), None);
}

#[test]
fn daily_template_is_filled() {
    assert_eq!(
        fill_daily_template("# {{date}}\n{{time}} {{date}}", "2026-05-20", "09:00"),
        "# 2026-05-20\n09:00 2026-05-20"
    );
}

#[test]
fn error_codes_and_messages() {
    let e = NodaError::NotFound("x".to_string());
    assert_eq!(e.code(), "NOT_FOUND");
    assert_eq!(e.message(), "Resource not found: x");
    let a = AppError::from_noda(&NodaError::PathTraversal("p".to_string()));
    assert_eq!(a.code, "PATH_TRAVERSAL");
    assert_eq!(a.to_text(), "[PATH_TRAVERSAL] Path traversal detected: p");
    let i = AppError::internal("boom".to_string());
    assert_eq!(i.code, "INTERNAL_ERROR");
    assert_eq!(i.message, "boom");
    let n = AppError::new("VAULT_NOT_FOUND".to_string(), "missing".to_string());
    assert_eq!(n.code, "VAULT_NOT_FOUND");
}

#[test]
fn duplicate_notes_are_grouped_and_sorted() {
    let scanned = |id: &str, title: &str, path: &str| ScannedNote {
        id: id.to_string(),
        title: title.to_string(),
        file_path: path.to_string(),
        last_modified: "2026-05-20T03:00:00+00:00".to_string(),
        size_bytes: 7,
    };
    let notes = vec![
        scanned("B", "Zeta", "b.md"),
        scanned("A", "Alpha", "a.md"),
        scanned("B", "Zeta copy", "work/b.md"),
        scanned("C", "Solo", "c.md"),
        scanned("A", "Alpha again", "x/a.md"),
    ];
    let groups = duplicate_groups(&notes);
    assert_eq!(groups.len(), 2);
    assert_eq!(groups[0].note_id, "A");
    assert_eq!(groups[0].title, "Alpha");
    assert_eq!(groups[0].files.len(), 2);
    assert_eq!(groups[0].files[1].relative_path, "x/a.md");
    assert_eq!(groups[1].note_id, "B");
    assert_eq!(groups[1].files[0].size_bytes, 7);
}

#[test]
fn timeouts() {
    assert_eq!(default_timeout_setting(), "15m");
    assert_eq!(timeout_limit_secs("1m"), 60);
    assert_eq!(timeout_limit_secs("5m"), 300);
    assert_eq!(timeout_limit_secs("15m"), 900);
    assert_eq!(timeout_limit_secs("1h"), 3600);
    assert_eq!(timeout_limit_secs("Every Time"), 0);
    assert_eq!(timeout_limit_secs("Until App Closes"), 314_496_000);
}

#[test]
fn encrypted_note_decrypts_to_its_body() {
    let (config, kek) = register_password("correct horse").unwrap();
    assert_eq!(config.timeout_setting, "15m");
    assert_eq!(kek.len(), 32);
    let mut session = Session::new(at(1_779_246_000));
    assert!(!unlock_with_password(&config, "wrong", &mut session, at(1_779_246_000)).unwrap());
    assert!(!session.is_unlocked());
    assert!(unlock_with_password(&config, "correct horse", &mut session, at(1_779_246_000)).unwrap());
    assert!(session.is_unlocked());

    let mut note = blank_note_with("01H7V18105M5MWRB28Z1220000", at(1_779_246_000));
    note.body = "secret body".to_string();
    encrypt_note(&mut note, &mut session).unwrap();
    assert!(note.is_encrypted);
    assert_ne!(note.body, "secret body");
    decrypt_note(&mut note, &mut session).unwrap();
    assert!(!note.is_encrypted);
    assert_eq!(note.body, "secret body");
}

#[test]
fn locked_session_refuses_to_encrypt() {
    let mut session = Session::new(at(0));
    let mut note = blank_note_with("01H7V18105M5MWRB28Z1220000", at(0));
    note.body = "x".to_string();
    assert!(matches!(encrypt_note(&mut note, &mut session), Err(NodaError::Vault(_))));
    assert_eq!(note.body, "x");
}

fn snap(secs: i64, path: &str) -> Snapshot {
    Snapshot {
        note_id: NoteId("N".to_string()),
        timestamp: at(secs),
        absolute_path: path.to_string(),
        reason: "Manual".to_string(),
    }
}

#[test]
fn snapshot_timestamps_format_for_file_names() {
    let mut s = snap(1_700_000_000, "/v/.noda/history/x.md");
    s.timestamp.nanos = 123_456_789;
    assert_eq!(s.timestamp_filename(), "20231114_221320_123");
}

#[test]
fn snapshot_names_round_trip() {
    let name = snapshot_file_name("01H7V18105M5MWRB28Z1220000", "20260520-030000", "Trash");
    assert_eq!(name, "01H7V18105M5MWRB28Z1220000_20260520-030000_Trash.md");
    let parsed = parse_snapshot_name(&format!("/v/.noda/history/{}", name), "01H7V18105M5MWRB28Z1220000").unwrap();
    assert_eq!(parsed.date_text, "20260520-030000");
    assert_eq!(parsed.reason, "Trash");
    let multi = parse_snapshot_name("/v/.noda/history/ID_20260520-030000_Before_Edit.md", "ID").unwrap();
    assert_eq!(multi.reason, "Before_Edit");
    assert!(parse_snapshot_name("/v/.noda/history/ID_20260520-030000.md", "ID").is_none());
    assert!(parse_snapshot_name("/v/.noda/history/OTHER_1_2.md", "ID").is_none());
    assert!(parse_snapshot_name("/v/.noda/history/ID_1_2.txt", "ID").is_none());
}

#[test]
fn snapshots_list_newest_first_and_are_found_by_millisecond() {
    let ordered = order_snapshots(vec![snap(100, "a"), snap(300, "b"), snap(200, "c")]);
    let paths: Vec<&str> = ordered.iter().map(|s| s.absolute_path.as_str()).collect();
    assert_eq!(paths, vec!["b", "c", "a"]);
    assert_eq!(find_snapshot_at(&ordered, 200_000), Some(1));
    assert_eq!(find_snapshot_at(&ordered, 200_001), None);
}

#[test]
fn retention_prunes_by_age_then_count() {
    let oldest_first = vec![snap(10, "s10"), snap(20, "s20"), snap(30, "s30"), snap(40, "s40"), snap(50, "s50")];
    assert_eq!(retention_victims(&oldest_first, Some(at(25)), Some(2)), vec!["s10", "s20", "s30"]);
    assert_eq!(retention_victims(&oldest_first, None, Some(3)), vec!["s10", "s20"]);
    assert_eq!(retention_victims(&oldest_first, Some(at(5)), None), Vec::<String>::new());
    assert_eq!(retention_victims(&oldest_first, None, Some(10)), Vec::<String>::new());
}

#[test]
fn compare_shows_line_changes() {
    let chunks = compare_bodies("a\nb\n", "a\nc\n");
    let pairs: Vec<(String, String)> = chunks.into_iter().map(|c| (c.tag, c.text)).collect();
    assert_eq!(
        pairs,
        vec![
            ("Equal".to_string(), "a\n".to_string()),
            ("Delete".to_string(), "b\n".to_string()),
            ("Insert".to_string(), "c\n".to_string()),
        ]
    );
}

#[test]
fn trash_entries_record_their_origin() {
    assert_eq!(original_path("/vault", "/vault/work/a.md"), "work/a.md");
    assert_eq!(original_path("/vault", "work/a.md"), "work/a.md");
    assert_eq!(original_path("/vault", "/elsewhere/a.md"), "/elsewhere/a.md");
    let id = NoteId("01H7V18105M5MWRB28Z1220000".to_string());
    let e = new_trash_entry(&id, "To be deleted", "/vault", "01H7V18105M5MWRB28Z1220000.md", at(5));
    assert_eq!(e.filename, "01H7V18105M5MWRB28Z1220000.md");
    assert_eq!(e.original_path, "01H7V18105M5MWRB28Z1220000.md");
    assert_eq!(e.id.as_ref().unwrap().0, "01H7V18105M5MWRB28Z1220000");
    assert_eq!(e.title, "To be deleted");
}

fn trashed(secs: i64, title: &str) -> TrashEntry {
    TrashEntry {
        note_id: NoteId("N".to_string()),
        id: None,
        original_path: "n.md".to_string(),
        deleted_at: at(secs),
        filename: "N.md".to_string(),
        title: title.to_string(),
    }
}

#[test]
fn trash_listing_is_completed_and_newest_first() {
    let mut e = trashed(1, "");
    complete_listed(&mut e, None);
    assert_eq!(e.title, "Untitled");
    assert_eq!(e.id.as_ref().unwrap().0, "N");
    let mut f = trashed(1, "");
    complete_listed(&mut f, Some("From file".to_string()));
    assert_eq!(f.title, "From file");
    let mut g = trashed(1, "Own");
    complete_listed(&mut g, Some("From file".to_string()));
    assert_eq!(g.title, "Own");

    let ordered = order_trash(vec![trashed(1, "a"), trashed(3, "b"), trashed(2, "c")]);
    let titles: Vec<&str> = ordered.iter().map(|t| t.title.as_str()).collect();
    assert_eq!(titles, vec!["b", "c", "a"]);
}

#[test]
fn master_password_change_reseals_note_keys() {
    let (config, kek) = register_password("old pw").unwrap();
    match begin_password_change(&config, "wrong", "new pw") {
        Err(NodaError::Vault(m)) => assert_eq!(m, "Incorrect old password"),
        other => panic!("unexpected {:?}", other),
    }
    let change = begin_password_change(&config, "old pw", "new pw").unwrap();
    assert_eq!(change.old_kek, kek);
    assert_eq!(change.new_kek.len(), 32);

    let mut session = Session::new(at(0));
    session.unlock(kek.clone(), "15m".to_string(), at(0));
    let mut note = blank_note_with("01H7V18105M5MWRB28Z1220000", at(0));
    note.body = "kept secret".to_string();
    encrypt_note(&mut note, &mut session).unwrap();
    let (sealed, nonce) = reseal_note_key(&change.old_kek, &change.new_kek, &note.dek_encrypted, &note.dek_nonce).unwrap();
    note.dek_encrypted = Some(sealed);
    note.dek_nonce = Some(nonce);

    let new_config = finish_password_change(&config, "new pw", change.new_salt.clone()).unwrap();
    assert_eq!(new_config.kek_salt, change.new_salt);
    assert_eq!(new_config.timeout_setting, "15m");
    let mut fresh = Session::new(at(0));
    assert!(unlock_with_password(&new_config, "new pw", &mut fresh, at(0)).unwrap());
    decrypt_note(&mut note, &mut fresh).unwrap();
    assert_eq!(note.body, "kept secret");
}

#[test]
fn article_outcomes_become_markdown_or_vault_errors() {
    match article_markdown(Ok(None)) {
        Err(NodaError::Vault(m)) => assert_eq!(m, "Readability parsing failed"),
        other => panic!("unexpected {:?}", other),
    }
    match article_markdown(Err("bad html".to_string())) {
        Err(NodaError::Vault(m)) => assert_eq!(m, "Readability initialization failed: bad html"),
        other => panic!("unexpected {:?}", other),
    }
    let md = article_markdown(Ok(Some("<p>Hello <b>there</b></p>".to_string()))).unwrap();
    assert!(md.contains("Hello"));
    assert!(md.contains("**there**"));
}

#[test]
fn blank_pages_and_bad_urls_are_refused_before_extraction() {
    match fetched_markdown("   ", "https://example.com") {
        Err(NodaError::Vault(m)) => assert_eq!(m, "Fetched HTML content is empty"),
        other => panic!("unexpected {:?}", other),
    }
    match fetched_markdown("<p>x</p>", "not a url") {
        Err(NodaError::Vault(m)) => assert!(m.starts_with("Invalid URL: ")),
        other => panic!("unexpected {:?}", other),
    }
}
