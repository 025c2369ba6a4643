use noda_core::attachments::{attachment_file_name, attachment_uri, resolve_path};
use noda_core::clipper::sanitize_title;
use noda_core::crypto::{begin_password_change, register_password, reseal_note_key, unlock_with_password, Session, VaultConfig};
use noda_core::delta::{calculate_delta, calculate_raw_delta, LocalNote, LocalRawFile};
use noda_core::notes::blank_note_with;
use noda_core::engine::{report_file_label, report_note_id, report_path_note_ids};
use noda_core::errors::NodaError;
use noda_core::models::{RemoteEntry, RemoteState};
use noda_core::paths::{get_relative_path, normalize_path};
use noda_core::time::Timestamp;

fn at(secs: i64) -> Timestamp {
    Timestamp { secs, nanos: 0 }
}

fn file_entry(href: &str, size: u64, etag: &str) -> RemoteEntry {
    RemoteEntry {
        href: href.to_string(),
        is_collection: false,
        last_modified: Some("Wed, 20 May 2026 03:00:00 GMT".to_string()),
        size: Some(size),
        etag: Some(etag.to_string()),
    }
}

fn dir_entry(href: &str) -> RemoteEntry {
    RemoteEntry { href: href.to_string(), is_collection: true, last_modified: None, size: None, etag: None }
}

#[test]
fn normalised_paths_are_clean_and_stable() {
    for p in ["", "/", "///dav//vault//", "https://example.com/dav/vault/My%20Note.md", "a//b/", "http://h"] {
        let n = normalize_path(p);
        assert!(n.starts_with('/'));
        assert!(!n.contains("//"));
        assert!(n == "/" || !n.ends_with('/'));
        assert_eq!(normalize_path(&n), n);
    }
    assert_eq!(normalize_path("/dav/vault/notes/a.md"), "/dav/vault/notes/a.md");
}

#[test]
fn relative_paths_of_children_and_root() {
    assert_eq!(get_relative_path("/vault/notes/a.md", "/vault"), "notes/a.md");
    assert_eq!(get_relative_path("/notes/a.md", "/"), "notes/a.md");
    assert_eq!(get_relative_path("https://example.com/vault/", "/vault"), "/");
    assert_eq!(get_relative_path("/x/y.md", "/"), "x/y.md");
    for (h, r) in [("/vault/a.md", "/vault"), ("/elsewhere/b.md", "/vault"), ("/vault", "/vault")] {
        let rel = get_relative_path(h, r);
        assert!(!rel.is_empty());
        assert!(rel == "/" || !rel.starts_with('/'));
    }
}

#[test]
fn collections_do_not_change_a_plan() {
    let remote = vec![file_entry("/vault/01H7V18105M5MWRB28Z1220000.md", 100, "e1")];
    let mut with_dirs = vec![file_entry("/vault/01H7V18105M5MWRB28Z1220000.md", 100, "e1")];
    with_dirs.push(dir_entry("/vault/"));
    with_dirs.push(dir_entry("/vault/sub/"));
    let previous = RemoteState::new();
    let a = calculate_delta(&[], &remote, &previous, "/vault").actions;
    let b = calculate_delta(&[], &with_dirs, &previous, "/vault").actions;
    assert_eq!(a.len(), 1);
    assert_eq!(format!("{:?}", a), format!("{:?}", b));
    let raw: Vec<LocalRawFile> = Vec::new();
    let att = vec![file_entry("/vault/.noda/attachments/p.png", 10, "h")];
    let mut att_dirs = vec![file_entry("/vault/.noda/attachments/p.png", 10, "h")];
    att_dirs.push(dir_entry("/vault/.noda/attachments/"));
    let c = calculate_raw_delta(&raw, &att, &previous, "/vault").actions;
    let d = calculate_raw_delta(&raw, &att_dirs, &previous, "/vault").actions;
    assert_eq!(c.len(), 1);
    assert_eq!(format!("{:?}", c), format!("{:?}", d));
}

#[test]
fn attachment_uri_resolves_to_stored_file() {
    let name = "xxh3_0123456789abcdef.png";
    let uri = attachment_uri(name);
    assert_eq!(uri, "noda://attachments/xxh3_0123456789abcdef.png");
    assert_eq!(resolve_path("/vault", &uri).unwrap(), "/vault/.noda/attachments/xxh3_0123456789abcdef.png");
}

#[test]
fn clip_file_names_are_clean_and_stable() {
    for t in ["Hello, World!", "__a__b__", "", "???", "Ünïcode title 42", "a - b"] {
        let s = sanitize_title(t);
        assert!(!s.is_empty());
        assert!(s.chars().all(|c| c.is_alphanumeric() || c == '-' || c == '_'));
        assert!(!s.contains("__"));
        assert!(!s.starts_with('_') && !s.ends_with('_'));
        assert_eq!(sanitize_title(&s), s);
    }
}

#[test]
fn report_labels_name_the_note() {
    let file = "notes/01H7V18105M5MWRB28Z1220000.md";
    assert_eq!(report_note_id(file), Some("01H7V18105M5MWRB28Z1220000".to_string()));
    assert_eq!(report_note_id("notes/readme.md"), None);
    assert_eq!(report_note_id(".noda/history/01H7V18105M5MWRB28Z1220000_1700000000000.md"), Some("01H7V18105M5MWRB28Z1220000".to_string()));
    assert_eq!(report_path_note_ids("01H7V18105M5MWRB28Z1220000/sub/x.md"), vec!["01H7V18105M5MWRB28Z1220000".to_string()]);
    assert_eq!(report_file_label(file, Some("Title".into()), None, None, None), format!("Title ({})", file));
    assert_eq!(report_file_label(file, None, Some("Gone".into()), Some("F".into()), None), format!("Gone (Deleted: {})", file));
    assert_eq!(report_file_label(file, None, None, Some("Front".into()), Some("P".into())), format!("Front ({})", file));
    assert_eq!(report_file_label(file, None, None, None, Some("Parent".into())), format!("Parent ({})", file));
    assert_eq!(report_file_label(file, None, None, None, None), file);
}

#[test]
fn unlocking_answers_for_every_password_check() {
    let (config, _kek) = register_password("right horse").unwrap();
    let mut s = Session::new(at(0));
    assert_eq!(unlock_with_password(&config, "wrong", &mut s, at(1)).unwrap(), false);
    assert!(!s.is_unlocked());
    assert_eq!(unlock_with_password(&config, "right horse", &mut s, at(2)).unwrap(), true);
    assert!(s.is_unlocked());
    let broken = VaultConfig { master_password_hash: "not a hash".into(), kek_salt: config.kek_salt.clone(), timeout_setting: "15m".into() };
    let mut t = Session::new(at(0));
    assert!(matches!(unlock_with_password(&broken, "right horse", &mut t, at(1)), Err(NodaError::Vault(_))));
    let bad_salt = VaultConfig { master_password_hash: config.master_password_hash.clone(), kek_salt: "***".into(), timeout_setting: "15m".into() };
    assert!(matches!(unlock_with_password(&bad_salt, "right horse", &mut t, at(1)), Err(NodaError::Vault(_))));
}

#[test]
fn password_change_refuses_a_wrong_old_password() {
    let (config, _kek) = register_password("old pass").unwrap();
    match begin_password_change(&config, "not it", "new pass") {
        Err(NodaError::Vault(m)) => assert_eq!(m, "Incorrect old password"),
        other => panic!("unexpected {:?}", other.is_ok()),
    }
    let change = begin_password_change(&config, "old pass", "new pass").unwrap();
    assert_eq!(change.old_kek.len(), 32);
    assert_eq!(change.new_kek.len(), 32);
}

#[test]
fn resealing_needs_both_key_fields() {
    let old = vec![1u8; 32];
    let new = vec![2u8; 32];
    assert!(matches!(reseal_note_key(&old, &new, &None, &Some("AAAA".into())), Err(NodaError::Vault(_))));
    assert!(matches!(reseal_note_key(&old, &new, &Some("AAAA".into()), &None), Err(NodaError::Vault(_))));
    assert!(matches!(reseal_note_key(&old, &new, &Some("%%%".into()), &Some("AAAA".into())), Err(NodaError::Vault(_))));
}

#[test]
fn note_plans_ignore_input_order() {
    let a = "01H7V18105M5MWRB28Z1220000";
    let b = "01H7V18105M5MWRB28Z1220001";
    let c = "01H7V18105M5MWRB28Z1220002";
    let local = |id: &str| LocalNote { note: blank_note_with(id, at(1_700_000_000)), markdown_size: 10 };
    let r1 = || file_entry(&format!("/vault/{}.md", b), 50, "eb");
    let r2 = || file_entry(&format!("/vault/{}.md", c), 60, "ec");
    let previous = RemoteState::new();
    let one = calculate_delta(&[local(a), local(b)], &[r1(), r2()], &previous, "/vault").actions;
    let two = calculate_delta(&[local(b), local(a)], &[r2(), r1()], &previous, "/vault").actions;
    let mut x: Vec<String> = one.iter().map(|s| format!("{:?}", s)).collect();
    let mut y: Vec<String> = two.iter().map(|s| format!("{:?}", s)).collect();
    assert_eq!(x.len(), 3);
    x.sort();
    y.sort();
    assert_eq!(x, y);
}

#[test]
fn collections_anywhere_in_the_listing_change_no_actions() {
    let a = "01H7V18105M5MWRB28Z1220000";
    let b = "01H7V18105M5MWRB28Z1220001";
    let local = || vec![LocalNote { note: blank_note_with(a, at(1_700_000_000)), markdown_size: 10 }];
    let previous = RemoteState::new();
    let plain = vec![file_entry(&format!("/vault/{}.md", b), 60, "eb")];
    let mixed = vec![dir_entry("/vault/"), file_entry(&format!("/vault/{}.md", b), 60, "eb"), dir_entry("/vault/sub/")];
    let mut x: Vec<String> = calculate_delta(&local(), &plain, &previous, "/vault").actions.iter().map(|s| format!("{:?}", s)).collect();
    let mut y: Vec<String> = calculate_delta(&local(), &mixed, &previous, "/vault").actions.iter().map(|s| format!("{:?}", s)).collect();
    x.sort();
    y.sort();
    assert_eq!(x.len(), 2);
    assert_eq!(x, y);
}

#[test]
fn a_registered_password_verifies_and_a_changed_one_too() {
    let (config, kek) = register_password("first").unwrap();
    let mut s = Session::new(at(0));
    assert!(unlock_with_password(&config, "first", &mut s, at(1)).unwrap());
    assert_eq!(kek.len(), 32);
    let change = begin_password_change(&config, "first", "second").unwrap();
    let next = noda_core::crypto::finish_password_change(&config, "second", change.new_salt.clone()).unwrap();
    let mut t = Session::new(at(0));
    assert!(unlock_with_password(&next, "second", &mut t, at(1)).unwrap());
    assert!(!unlock_with_password(&next, "first", &mut t, at(2)).unwrap());
}

#[test]
fn stored_attachment_names_resolve_inside_the_directory() {
    for original in ["test_image.png", "noext", "archive.tar.gz", ".hidden"] {
        let name = attachment_file_name(b"fake image data", original);
        assert!(name.starts_with("xxh3_"));
        assert!(!name.contains("..") && !name.contains('/') && !name.contains('\\'));
        let uri = attachment_uri(&name);
        assert_eq!(resolve_path("/v", &uri).unwrap(), format!("/v/.noda/attachments/{}", name));
    }
    assert_eq!(attachment_file_name(b"fake image data", "a.png"), attachment_file_name(b"fake image data", "b.png"));
}
