use noda_core::attachments::{
    attachment_file_name, attachment_uri, order_by_recency, resolve_path, validate_path, AttachmentInfo,
};
use noda_core::delta::SyncAction;
use noda_core::engine::content_hash;
use noda_core::errors::{IoKind, NodaError};
use noda_core::queue::SyncQueue;
use noda_core::settings::{
    complete_loaded, default_accent_color, default_auto_save_delay_ms, default_empty_trash_after_days,
    default_font_size, default_max_snapshots_per_note, default_retention_days, default_show_word_count,
    default_snapshot_interval_mins, default_theme, default_typography, device_check_needed,
    device_name_taken, listing_failure_means_absent, AppConfig,
};
use noda_core::models::RemoteEntry;
use noda_core::vault::{
    config_file_path, extension_of, file_name_of, join_path, resolve_note_path, Vault, VaultService,
};
use noda_core::watch::{is_valid_file, process_event, VaultEvent, WatchEvent, WatchKind};

#[test]
fn vault_name_is_last_component() {
    assert_eq!(Vault::new("/home/user/MyVault".to_string()).name, "MyVault");
    assert_eq!(Vault::new("/home/user/MyVault/".to_string()).name, "MyVault");
    assert_eq!(Vault::new("/".to_string()).name, "Unknown Vault");
    assert_eq!(Vault::new("/a/..".to_string()).name, "Unknown Vault");
    assert_eq!(Vault::new("/vault".to_string()).path, "/vault");
}

#[test]
fn note_paths_resolve_against_the_vault() {
    let vault = Vault::new("/vault".to_string());
    assert_eq!(resolve_note_path(&vault, "work/a.md"), "/vault/work/a.md");
    assert_eq!(resolve_note_path(&vault, "/elsewhere/a.md"), "/elsewhere/a.md");
    let trailing = Vault::new("/vault/".to_string());
    assert_eq!(resolve_note_path(&trailing, "a.md"), "/vault/a.md");
}

#[test]
fn path_helpers_follow_std_path() {
    assert_eq!(join_path("", "a"), "a");
    assert_eq!(file_name_of("dir/file.tar.gz"), Some("file.tar.gz".to_string()));
    assert_eq!(extension_of("dir/file.tar.gz"), Some("gz".to_string()));
    assert_eq!(extension_of("dir/.bashrc"), None);
    assert_eq!(extension_of("dir/noext"), None);
    assert_eq!(file_name_of("."), None);
}

#[test]
fn vault_service_keeps_its_base_path() {
    let s = VaultService::new("/tmp/some-vault".to_string());
    assert_eq!(s.base_path(), "/tmp/some-vault");
}

#[test]
fn master_password_configuration_lives_under_noda() {
    assert_eq!(config_file_path("/home/me/vault"), "/home/me/vault/.noda/vault_config.json");
}

#[test]
fn resolve_attachment_uri() {
    let r = resolve_path("/vault", "noda://attachments/pic.png").unwrap();
    assert_eq!(r, "/vault/.noda/attachments/pic.png");
}

#[test]
fn resolve_attachment_uri_rejects_traversal() {
    match resolve_path("/vault", "noda://attachments/../secret.txt") {
        Err(NodaError::PathTraversal(m)) => assert_eq!(m, "Path traversal detected in URI"),
        other => panic!("unexpected {:?}", other),
    }
    assert!(matches!(resolve_path("/vault", "noda://attachments/a\\b.png"), Err(NodaError::PathTraversal(_))));
}

#[test]
fn resolve_attachment_uri_rejects_other_uris() {
    match resolve_path("/vault", "http://example.com/x.png") {
        Err(NodaError::Io(k, m)) => {
            assert_eq!(k, IoKind::InvalidInput);
            assert_eq!(m, "Invalid attachment URI: http://example.com/x.png");
        }
        other => panic!("unexpected {:?}", other),
    }
}

#[test]
fn validate_path_checks_containment() {
    let dir = Some("/v/.noda/attachments".to_string());
    assert_eq!(
        validate_path(dir.clone(), Some("/v/.noda/attachments/a.png".to_string())).unwrap(),
        "/v/.noda/attachments/a.png"
    );
    assert!(matches!(validate_path(dir.clone(), Some("/v/secret.txt".to_string())), Err(NodaError::PathTraversal(_))));
    assert!(matches!(validate_path(dir.clone(), Some("/v/.noda/attachmentsX/a".to_string())), Err(NodaError::PathTraversal(_))));
    assert!(matches!(validate_path(None, Some("/v/a".to_string())), Err(NodaError::NotFound(_))));
    assert!(matches!(validate_path(dir, None), Err(NodaError::NotFound(_))));
}

#[test]
fn content_hash_is_xxh3_in_hex() {
    let expected = format!("{:016x}", xxhash_rust::xxh3::xxh3_64(b"fake image data"));
    assert_eq!(content_hash(b"fake image data"), expected);
    assert_ne!(content_hash(b"fake image data"), content_hash(b"other data"));
}

#[test]
fn attachment_names_are_content_addressed() {
    let name = attachment_file_name(b"fake image data", "/tmp/test_image.png");
    assert_eq!(name, format!("xxh3_{}.png", content_hash(b"fake image data")));
    assert_eq!(attachment_file_name(b"x", "noext"), format!("xxh3_{}", content_hash(b"x")));
    assert_eq!(attachment_file_name(b"x", "dot."), format!("xxh3_{}", content_hash(b"x")));
    let uri = attachment_uri(&name);
    assert!(uri.starts_with("noda://attachments/xxh3_"));
    assert!(uri.ends_with(".png"));
}

#[test]
fn attachments_list_newest_first() {
    let items = vec![
        AttachmentInfo { name: "a".to_string(), modified_at: 10, size: 1 },
        AttachmentInfo { name: "b".to_string(), modified_at: 30, size: 1 },
        AttachmentInfo { name: "c".to_string(), modified_at: 10, size: 1 },
        AttachmentInfo { name: "d".to_string(), modified_at: 20, size: 1 },
    ];
    let names: Vec<String> = order_by_recency(items).into_iter().map(|a| a.name).collect();
    assert_eq!(names, vec!["b", "d", "a", "c"]);
}

#[test]
fn only_markdown_outside_noda_is_a_note_file() {
    assert!(is_valid_file("/vault/note.md", "/vault"));
    assert!(is_valid_file("/vault/work/note.md", "/vault"));
    assert!(!is_valid_file("/vault/.noda/history/x.md", "/vault"));
    assert!(!is_valid_file("/vault/work/.noda/x.md", "/vault"));
    assert!(!is_valid_file("/vault/pic.png", "/vault"));
    assert!(!is_valid_file("/other/note.md", "/vault"));
    assert!(!is_valid_file("/vaultx/note.md", "/vault"));
}

#[test]
fn watcher_events_become_vault_events() {
    let ev = WatchEvent {
        kind: WatchKind::Create,
        paths: vec!["/vault/a.md".to_string(), "/vault/b.txt".to_string()],
    };
    let out = process_event(ev, "/vault");
    assert_eq!(out.len(), 1);
    assert!(matches!(&out[0], VaultEvent::Create(p) if p == "/vault/a.md"));

    let rename = WatchEvent {
        kind: WatchKind::Rename,
        paths: vec!["/vault/a.md".to_string(), "/vault/a.txt".to_string()],
    };
    let out = process_event(rename, "/vault");
    assert_eq!(out.len(), 1);
    assert!(matches!(&out[0], VaultEvent::Delete(p) if p == "/vault/a.md"));

    let both = WatchEvent {
        kind: WatchKind::Rename,
        paths: vec!["/vault/a.md".to_string(), "/vault/b.md".to_string()],
    };
    let out = process_event(both, "/vault");
    assert!(matches!(&out[0], VaultEvent::Rename(a, b) if a == "/vault/a.md" && b == "/vault/b.md"));

    let other = WatchEvent { kind: WatchKind::Other, paths: vec!["/vault/a.md".to_string()] };
    assert!(process_event(other, "/vault").is_empty());
}

#[test]
fn settings_defaults() {
    assert_eq!(default_theme(), "dark");
    assert_eq!(default_accent_color(), "blue");
    assert_eq!(default_font_size(), 14);
    assert_eq!(default_typography(), "sans");
    assert!(default_show_word_count());
    assert_eq!(default_auto_save_delay_ms(), 1500);
    assert_eq!(default_retention_days(), 30);
    assert_eq!(default_max_snapshots_per_note(), 50);
    assert_eq!(default_empty_trash_after_days(), 30);
    assert_eq!(default_snapshot_interval_mins(), 5);
    let c = AppConfig::default();
    assert_eq!(c.appearance.theme, "dark");
    assert_eq!(c.editor.font_size, 14);
    assert_eq!(c.history.max_snapshots_per_note, 50);
    assert_eq!(c.sync.device_name, "");
}

#[test]
fn loaded_settings_get_a_device_name() {
    let mut c = AppConfig::default();
    assert!(complete_loaded(&mut c));
    assert!(c.sync.device_name.starts_with("Noda-Device-"));
    assert_eq!(c.sync.device_name.len(), 16);
    let name = c.sync.device_name.clone();
    assert!(!complete_loaded(&mut c));
    assert_eq!(c.sync.device_name, name);
}

#[test]
fn device_rename_checks() {
    let mut old = AppConfig::default();
    old.sync.device_name = "phone".to_string();
    let mut new = AppConfig::default();
    new.sync.device_name = "tablet".to_string();
    assert!(!device_check_needed(&new, &old));
    new.sync.webdav_url = "https://dav.example.com".to_string();
    assert!(device_check_needed(&new, &old));
    new.sync.device_name = "phone".to_string();
    assert!(!device_check_needed(&new, &old));

    let entries = vec![
        RemoteEntry { href: "/dav/.noda/sync/".to_string(), is_collection: true, last_modified: None, size: None, etag: None },
        RemoteEntry { href: "/dav/.noda/sync/tablet.sync".to_string(), is_collection: false, last_modified: None, size: Some(0), etag: None },
    ];
    assert!(device_name_taken(&entries, "tablet"));
    assert!(!device_name_taken(&entries, "phone"));
    assert!(listing_failure_means_absent("HTTP 404"));
    assert!(listing_failure_means_absent("Not Found"));
    assert!(!listing_failure_means_absent("HTTP 500"));
}

#[test]
fn sync_queue_is_first_in_first_out() {
    let mut q = SyncQueue::new();
    assert!(q.is_empty());
    q.enqueue(SyncAction::Upload { relative_path: "note1.md".to_string() });
    q.enqueue(SyncAction::DeleteRemote { relative_path: "note2.md".to_string() });
    assert_eq!(q.len(), 2);
    assert_eq!(q.entries()[0].id.len(), 26);
    assert_ne!(q.entries()[0].id, q.entries()[1].id);
    let first = q.dequeue().unwrap();
    assert!(matches!(first.action, SyncAction::Upload { ref relative_path } if relative_path == "note1.md"));
    let second = q.dequeue().unwrap();
    assert!(matches!(second.action, SyncAction::DeleteRemote { ref relative_path } if relative_path == "note2.md"));
    assert!(q.dequeue().is_none());
    assert!(q.is_empty());
}

#[test]
fn generated_device_names_carry_four_upper_hex_digits() {
    let name = noda_core::engine::SyncConfig::generate_random_device_name();
    assert_eq!(name.len(), 16);
    assert!(name.starts_with("Noda-Device-"));
    assert!(name[12..].chars().all(|c| c.is_ascii_digit() || ('A'..='F').contains(&c)));
}
