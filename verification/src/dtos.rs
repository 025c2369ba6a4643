//! The values that cross the boundary to the user interface, and how the core's notes,
//! vaults, reports and settings become them.
use vstd::prelude::*;
use crate::models::{Note, RemoteState, opt_view, strings_view, copy_opt, copy_strings, lemma_lookup_at, lemma_lookup_absent};
use crate::time::{format_rfc3339, rfc3339_text};
use crate::vault::Vault;
use crate::engine::SyncReport;
use crate::settings::AppConfig;

verus! {

/// A note as opened in the editor.
#[derive(Debug)]
pub struct NoteDto {
    pub id: String,
    pub parent_id: Option<String>,
    pub title: String,
    pub body: String,
    pub color: Option<String>,
    pub pinned: bool,
    pub tags: Vec<String>,
    pub created_at: String,
    pub updated_at: String,
    pub file_path: String,
}

/// The details of a note shown in its information panel.
#[derive(Debug)]
pub struct NoteMetadataDto {
    pub id: String,
    pub title: String,
    pub file_name: String,
    pub relative_path: String,
    pub absolute_path: String,
    pub created_at: String,
    pub updated_at: String,
    pub tags: Vec<String>,
    pub history_count: usize,
    pub last_upload_time: Option<String>,
    pub file_size_bytes: u64,
    pub word_count: usize,
    pub char_count: usize,
}

/// A note as listed, without its body.
#[derive(Debug)]
pub struct NoteListItemDto {
    pub id: String,
    pub parent_id: Option<String>,
    pub title: String,
    pub color: Option<String>,
    pub pinned: bool,
    pub tags: Vec<String>,
    pub updated_at: String,
    pub file_path: String,
}

/// The open vault.
#[derive(Debug)]
pub struct VaultInfoDto {
    pub name: String,
    pub path: String,
}

/// One piece of a text comparison: `Equal`, `Insert` or `Delete`, and its text.
#[derive(Debug)]
pub struct DiffChunk {
    pub tag: String,
    pub text: String,
}

/// A snapshot compared with the current note.
#[derive(Debug)]
pub struct SnapshotDiffDto {
    pub note_id: String,
    pub timestamp: String,
    pub body_chunks: Vec<DiffChunk>,
}

/// A stored snapshot of a note.
#[derive(Debug)]
pub struct SnapshotDto {
    pub note_id: String,
    pub timestamp: String,
    pub file_path: String,
    pub size_bytes: u64,
}

/// A note in the trash.
#[derive(Debug)]
pub struct TrashEntryDto {
    pub id: String,
    pub title: String,
    pub original_path: String,
    pub deleted_at: String,
    pub trash_path: String,
}

/// An archived conflict copy.
#[derive(Debug)]
pub struct ConflictEntryDto {
    pub id: String,
    pub title: String,
    pub file_path: String,
    pub archived_path: String,
    pub detected_at: String,
}

/// A stored attachment.
#[derive(Debug)]
pub struct AttachmentInfoDto {
    pub name: String,
    pub size_bytes: u64,
    pub mime_type: String,
    pub modified_at: u64,
}

/// What one synchronisation did.
#[derive(Debug)]
pub struct SyncReportDto {
    pub uploads: u32,
    pub downloads: u32,
    pub deletes_local: u32,
    pub deletes_remote: u32,
    pub conflicts: u32,
    pub uploaded_files: Vec<String>,
    pub downloaded_files: Vec<String>,
    pub deleted_local_files: Vec<String>,
    pub deleted_remote_files: Vec<String>,
    pub conflict_files: Vec<String>,
}

/// Appearance settings.
#[derive(Debug)]
pub struct AppearanceSettingsDto {
    pub theme: String,
    pub accent_color: String,
}

/// Editor settings.
#[derive(Debug)]
pub struct EditorSettingsDto {
    pub font_size: u32,
    pub typography: String,
    pub show_word_count: bool,
    pub auto_save_delay_ms: u32,
    pub default_daily_template: Option<String>,
}

/// A tag and the number of notes carrying it.
#[derive(Debug)]
pub struct TagWithCountDto {
    pub name: String,
    pub count: u32,
}

/// History settings.
#[derive(Debug)]
pub struct HistorySettingsDto {
    pub retention_days: u32,
    pub max_snapshots_per_note: u32,
    pub empty_trash_after_days: u32,
}

/// Synchronisation settings.
#[derive(Debug)]
pub struct SyncConfigDto {
    pub webdav_url: String,
    pub webdav_username: String,
    pub webdav_password: Option<String>,
    pub interval_secs: u64,
}

/// All settings.
#[derive(Debug)]
pub struct SettingsDto {
    pub appearance: AppearanceSettingsDto,
    pub editor: EditorSettingsDto,
    pub sync: SyncConfigDto,
    pub history: HistorySettingsDto,
}

/// A note for the editor: its fields, with times in RFC 3339.
pub fn note_dto(note: &Note) -> (r: NoteDto)
    ensures
        r.id@ == note.id.0@,
        opt_view(r.parent_id) == match note.parent_id { Some(p) => Some(p.0@), None => None },
        r.title@ == note.title@,
        r.body@ == note.body@,
        opt_view(r.color) == opt_view(note.color),
        r.pinned == note.pinned,
        strings_view(r.tags@) == strings_view(note.tags@),
        r.created_at@ == rfc3339_text(note.created_at.secs, note.created_at.nanos),
        r.updated_at@ == rfc3339_text(note.updated_at.secs, note.updated_at.nanos),
        r.file_path@ == note.file_path@,
{
    NoteDto {
        id: note.id.0.clone(),
        parent_id: match &note.parent_id {
            Some(p) => Some(p.0.clone()),
            None => None,
        },
        title: note.title.clone(),
        body: note.body.clone(),
        color: copy_opt(&note.color),
        pinned: note.pinned,
        tags: copy_strings(&note.tags),
        created_at: format_rfc3339(note.created_at),
        updated_at: format_rfc3339(note.updated_at),
        file_path: note.file_path.clone(),
    }
}

/// The number of words of a text: its maximal runs of non-white-space characters.
pub open spec fn word_count_spec(text: Seq<char>) -> nat {
    crate::search::runs(text, |c: char| crate::search::word_char(c)).len()
}

/// The details of a note: its fields, the file's name, path and size, its number of
/// snapshots, the last remote modification time recorded for its path (RFC 3339), and
/// the body's word and character counts.
pub fn note_metadata_dto(note: &Note, absolute_path: &str, history_count: usize, state: &RemoteState, file_size_bytes: u64) -> (r: NoteMetadataDto)
    requires
        state.wf(),
    ensures
        r.id@ == note.id.0@,
        r.title@ == note.title@,
        r.file_name@ == match crate::vault::path_file_name(absolute_path@) { Some(n) => n, None => Seq::<char>::empty() },
        r.relative_path@ == note.file_path@,
        r.absolute_path@ == absolute_path@,
        r.created_at@ == rfc3339_text(note.created_at.secs, note.created_at.nanos),
        r.updated_at@ == rfc3339_text(note.updated_at.secs, note.updated_at.nanos),
        strings_view(r.tags@) == strings_view(note.tags@),
        r.history_count == history_count,
        opt_view(r.last_upload_time) == match state.file_meta(note.file_path@) {
            Some(m) => match m.last_modified {
                Some(t) => Some(rfc3339_text(t.secs, t.nanos)),
                None => None,
            },
            None => None,
        },
        r.file_size_bytes == file_size_bytes,
        r.word_count == word_count_spec(note.body@),
        r.char_count == note.body@.len(),
{
    let last_upload_time = match state.find_file(note.file_path.as_str()) {
        Some(i) => {
            proof {
                lemma_lookup_at(state.files@, i as int);
            }
            match state.files[i].meta.last_modified {
                Some(t) => Some(format_rfc3339(t)),
                None => None,
            }
        },
        None => {
            proof {
                lemma_lookup_absent(state.files@, note.file_path@);
            }
            None
        },
    };
    let file_name = match crate::vault::file_name_of(absolute_path) {
        Some(n) => n,
        None => String::new(),
    };
    let body = crate::text::chars_of(note.body.as_str());
    let words = crate::search::split_runs(body.as_slice(), false);
    NoteMetadataDto {
        id: note.id.0.clone(),
        title: note.title.clone(),
        file_name,
        relative_path: note.file_path.clone(),
        absolute_path: absolute_path.to_string(),
        created_at: format_rfc3339(note.created_at),
        updated_at: format_rfc3339(note.updated_at),
        tags: copy_strings(&note.tags),
        history_count,
        last_upload_time,
        file_size_bytes,
        word_count: words.len(),
        char_count: body.len(),
    }
}

/// A note for the list: its fields without the body, with its update time in RFC 3339.
pub fn list_item_dto(note: &Note) -> (r: NoteListItemDto)
    ensures
        r.id@ == note.id.0@,
        opt_view(r.parent_id) == match note.parent_id { Some(p) => Some(p.0@), None => None },
        r.title@ == note.title@,
        opt_view(r.color) == opt_view(note.color),
        r.pinned == note.pinned,
        strings_view(r.tags@) == strings_view(note.tags@),
        r.updated_at@ == rfc3339_text(note.updated_at.secs, note.updated_at.nanos),
        r.file_path@ == note.file_path@,
{
    NoteListItemDto {
        id: note.id.0.clone(),
        parent_id: match &note.parent_id {
            Some(p) => Some(p.0.clone()),
            None => None,
        },
        title: note.title.clone(),
        color: copy_opt(&note.color),
        pinned: note.pinned,
        tags: copy_strings(&note.tags),
        updated_at: format_rfc3339(note.updated_at),
        file_path: note.file_path.clone(),
    }
}

/// The open vault for the interface.
pub fn vault_info_dto(vault: &Vault) -> (r: VaultInfoDto)
    ensures
        r.name@ == vault.name@,
        r.path@ == vault.path@,
{
    VaultInfoDto { name: vault.name.clone(), path: vault.path.clone() }
}

/// A synchronisation report for the interface.
pub fn sync_report_dto(report: &SyncReport) -> (r: SyncReportDto)
    ensures
        r.uploads == report.uploads,
        r.downloads == report.downloads,
        r.deletes_local == report.deletes_local,
        r.deletes_remote == report.deletes_remote,
        r.conflicts == report.conflicts,
        strings_view(r.uploaded_files@) == strings_view(report.uploaded_files@),
        strings_view(r.downloaded_files@) == strings_view(report.downloaded_files@),
        strings_view(r.deleted_local_files@) == strings_view(report.deleted_local_files@),
        strings_view(r.deleted_remote_files@) == strings_view(report.deleted_remote_files@),
        strings_view(r.conflict_files@) == strings_view(report.conflict_files@),
{
    SyncReportDto {
        uploads: report.uploads,
        downloads: report.downloads,
        deletes_local: report.deletes_local,
        deletes_remote: report.deletes_remote,
        conflicts: report.conflicts,
        uploaded_files: copy_strings(&report.uploaded_files),
        downloaded_files: copy_strings(&report.downloaded_files),
        deleted_local_files: copy_strings(&report.deleted_local_files),
        deleted_remote_files: copy_strings(&report.deleted_remote_files),
        conflict_files: copy_strings(&report.conflict_files),
    }
}

/// The settings for the interface (the device name and the snapshot interval stay
/// inside).
pub fn settings_dto(config: &AppConfig) -> (r: SettingsDto)
    ensures
        r.appearance.theme@ == config.appearance.theme@,
        r.appearance.accent_color@ == config.appearance.accent_color@,
        r.editor.font_size == config.editor.font_size,
        r.editor.typography@ == config.editor.typography@,
        r.editor.show_word_count == config.editor.show_word_count,
        r.editor.auto_save_delay_ms == config.editor.auto_save_delay_ms,
        opt_view(r.editor.default_daily_template) == opt_view(config.editor.default_daily_template),
        r.sync.webdav_url@ == config.sync.webdav_url@,
        r.sync.webdav_username@ == config.sync.webdav_username@,
        opt_view(r.sync.webdav_password) == opt_view(config.sync.webdav_password),
        r.sync.interval_secs == config.sync.interval_secs,
        r.history.retention_days == config.history.retention_days,
        r.history.max_snapshots_per_note == config.history.max_snapshots_per_note,
        r.history.empty_trash_after_days == config.history.empty_trash_after_days,
{
    SettingsDto {
        appearance: AppearanceSettingsDto {
            theme: config.appearance.theme.clone(),
            accent_color: config.appearance.accent_color.clone(),
        },
        editor: EditorSettingsDto {
            font_size: config.editor.font_size,
            typography: config.editor.typography.clone(),
            show_word_count: config.editor.show_word_count,
            auto_save_delay_ms: config.editor.auto_save_delay_ms,
            default_daily_template: copy_opt(&config.editor.default_daily_template),
        },
        sync: SyncConfigDto {
            webdav_url: config.sync.webdav_url.clone(),
            webdav_username: config.sync.webdav_username.clone(),
            webdav_password: copy_opt(&config.sync.webdav_password),
            interval_secs: config.sync.interval_secs,
        },
        history: HistorySettingsDto {
            retention_days: config.history.retention_days,
            max_snapshots_per_note: config.history.max_snapshots_per_note,
            empty_trash_after_days: config.history.empty_trash_after_days,
        },
    }
}

} // verus!
