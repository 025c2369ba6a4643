//! The earlier set of values sent to the user interface (vault status, notes, sync
//! status, conflicts, snapshots and trash entries).
use vstd::prelude::*;

verus! {

/// The open vault: its root, how many notes it holds and whether `.noda/` is healthy.
#[derive(Debug)]
pub struct VaultInfoDto {
    pub path: String,
    pub note_count: u64,
    pub is_healthy: bool,
}

/// A note as listed, without its body.
#[derive(Debug)]
pub struct NoteListItemDto {
    pub id: String,
    pub title: String,
    pub tags: Vec<String>,
    pub created: String,
    pub updated: String,
    pub status: String,
    pub relative_path: String,
}

/// A note as opened in the editor.
#[derive(Debug)]
pub struct NoteDto {
    pub id: String,
    pub title: String,
    pub body: String,
    pub tags: Vec<String>,
    pub created: String,
    pub updated: String,
    pub status: String,
    pub relative_path: String,
}

/// The lifecycle state of synchronisation.
#[derive(Debug, Clone, Copy, PartialEq, Eq)]
pub enum SyncState {
    Idle,
    Syncing,
    Error,
    Disabled,
}

/// The synchronisation status shown to the user.
#[derive(Debug)]
pub struct SyncStatusDto {
    pub state: SyncState,
    pub pending_count: u64,
    pub last_synced_at: Option<String>,
    pub error: Option<String>,
}

/// A conflict shown to the user: the note's title, the archived copy and when.
#[derive(Debug)]
pub struct ConflictDto {
    pub title: String,
    pub conflict_file_path: String,
    pub detected_at: String,
}

/// A stored snapshot of a note.
#[derive(Debug)]
pub struct SnapshotDto {
    pub note_id: String,
    pub timestamp: String,
    pub file_path: String,
}

/// A note in the trash.
#[derive(Debug)]
pub struct TrashEntryDto {
    pub note_id: String,
    pub title: String,
    pub original_relative_path: String,
    pub deleted_at: String,
    pub trash_file_path: String,
}

} // verus!
