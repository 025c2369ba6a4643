//! The light scan run when the app starts: which files are walked, which differ from
//! what the index recorded, and what is done with files the index tracks but the disk
//! no longer has. The walking, the metadata and the index queries are the caller's.
use vstd::prelude::*;
use crate::text::{has_prefix, has_suffix, contains_seq, chars_of, starts_with, contains, chars_eq};
use crate::time::{Timestamp, nanos_of, rfc3339_instant, parse_rfc3339, to_nanos};
use crate::tasks::{unicode_lowercase, to_lowercase};

verus! {

/// A directory entry the walk enters or reads: any name not starting with `.`, and
/// `.templates`.
pub open spec fn walk_visible(name: Seq<char>) -> bool {
    !(name.len() > 0 && name[0] == '.') || name == seq!['.', 't', 'e', 'm', 'p', 'l', 'a', 't', 'e', 's']
}

/// `true` for a directory entry the walk takes in.
pub fn is_walk_visible(name: &str) -> (r: bool)
    ensures
        r == walk_visible(name@),
{
    let n = chars_of(name);
    if n.len() > 0 && n[0] == '.' {
        let t = ['.', 't', 'e', 'm', 'p', 'l', 'a', 't', 'e', 's'];
        assert(t@ =~= seq!['.', 't', 'e', 'm', 'p', 'l', 'a', 't', 'e', 's']);
        return chars_eq(n.as_slice(), &t);
    }
    true
}

/// A Markdown path: it ends with `.md` or `.markdown`.
pub open spec fn markdown_path(p: Seq<char>) -> bool {
    has_suffix(p, seq!['.', 'm', 'd']) || has_suffix(p, seq!['.', 'm', 'a', 'r', 'k', 'd', 'o', 'w', 'n'])
}

pub(crate) fn ends_with_chars(s: &[char], suffix: &[char]) -> (r: bool)
    ensures
        r == has_suffix(s@, suffix@),
{
    if suffix.len() > s.len() {
        return false;
    }
    let off = s.len() - suffix.len();
    let mut i: usize = 0;
    while i < suffix.len()
        invariant
            i <= suffix@.len(),
            off + suffix@.len() == s@.len(),
            s@.len() == s.len(),
            forall|j: int| 0 <= j < i ==> s@[off + j] == suffix@[j],
        decreases suffix.len() - i,
    {
        if s[off + i] != suffix[i] {
            assert(s@.skip(off as int)[i as int] != suffix@[i as int]);
            return false;
        }
        i += 1;
    }
    assert(s@.skip(off as int) =~= suffix@);
    true
}

/// `true` for a Markdown path.
pub fn is_markdown_path(p: &str) -> (r: bool)
    ensures
        r == markdown_path(p@),
{
    let c = chars_of(p);
    let md = ['.', 'm', 'd'];
    let markdown = ['.', 'm', 'a', 'r', 'k', 'd', 'o', 'w', 'n'];
    assert(md@ =~= seq!['.', 'm', 'd']);
    assert(markdown@ =~= seq!['.', 'm', 'a', 'r', 'k', 'd', 'o', 'w', 'n']);
    ends_with_chars(c.as_slice(), &md) || ends_with_chars(c.as_slice(), &markdown)
}

/// A note of the vault: a Markdown path outside `.noda/`.
pub open spec fn vault_note_path(p: Seq<char>) -> bool {
    markdown_path(p) && !has_prefix(p, seq!['.', 'n', 'o', 'd', 'a', '/'])
}

/// What the index recorded of a file: its size and its local update time (RFC 3339).
#[derive(Debug)]
pub struct RecordedFile {
    pub size: i64,
    pub local_updated_at: Option<String>,
}

/// A file differs from its record: there is none; the sizes differ; no time was
/// recorded or it does not read as RFC 3339; or the times lie two or more whole seconds
/// apart.
pub open spec fn mismatch_spec(recorded: Option<(i64, Option<Seq<char>>)>, size: u64, mtime: Timestamp) -> bool {
    match recorded {
        None => true,
        Some((stored_size, stored_time)) => {
            if size != stored_size as u64 {
                true
            } else {
                match stored_time {
                    None => true,
                    Some(text) => match rfc3339_instant(text) {
                        None => true,
                        Some(p) => {
                            let d = nanos_of(mtime) - nanos_of(Timestamp { secs: p.0, nanos: p.1 });
                            d >= 2_000_000_000 || d <= -2_000_000_000
                        },
                    },
                }
            }
        },
    }
}

/// `true` when a file on disk (size, modification time) differs from what the index
/// recorded of it (see [`mismatch_spec`]).
pub fn check_file_mismatch(recorded: &Option<RecordedFile>, file_size: u64, file_mtime: Timestamp) -> (r: bool)
    ensures
        r == mismatch_spec(match recorded {
            Some(f) => Some((f.size, match f.local_updated_at { Some(t) => Some(t@), None => None })),
            None => None,
        }, file_size, file_mtime),
{
    match recorded {
        None => true,
        Some(f) => {
            if file_size != f.size as u64 {
                return true;
            }
            match &f.local_updated_at {
                None => true,
                Some(text) => match parse_rfc3339(text.as_str()) {
                    None => true,
                    Some(p) => {
                        let a = to_nanos(file_mtime);
                        let b = to_nanos(Timestamp { secs: p.0, nanos: p.1 });
                        let d = a - b;
                        d >= 2_000_000_000 || d <= -2_000_000_000
                    },
                },
            }
        },
    }
}

/// What the scan does with a file that differs from its record.
#[derive(Debug, PartialEq, Eq)]
pub enum MismatchAction {
    /// Read the note anew and store it in the index.
    ReindexNote,
    /// Mark the file as to be synchronised.
    MarkDirty,
}

/// Notes of the vault are read anew; every other file is marked to be synchronised.
pub fn mismatch_action(relative_path: &str) -> (r: MismatchAction)
    ensures
        r == (if vault_note_path(relative_path@) { MismatchAction::ReindexNote } else { MismatchAction::MarkDirty }),
{
    let c = chars_of(relative_path);
    let noda = ['.', 'n', 'o', 'd', 'a', '/'];
    assert(noda@ =~= seq!['.', 'n', 'o', 'd', 'a', '/']);
    if is_markdown_path(relative_path) && !starts_with(c.as_slice(), &noda) {
        MismatchAction::ReindexNote
    } else {
        MismatchAction::MarkDirty
    }
}

/// What the scan does with a path the index tracks.
#[derive(Debug, PartialEq, Eq)]
pub enum TrackedAction {
    /// Leave the record as it is.
    Keep,
    /// Drop the record (system litter and hidden files).
    Purge,
    /// The note is gone: delete it from the index.
    DeleteNote,
    /// The file is gone: mark it to be synchronised.
    MarkDirty,
}

/// The fate of a tracked path: a path whose lower-case form ends with `.ds_store` or
/// holds `/.` is purged; the `.noda/sync/` records and an existing vault configuration
/// are kept; a path the scan did not see is a deleted note (Markdown) or a file to
/// synchronise; anything else is kept.
pub open spec fn tracked_action_spec(path: Seq<char>, scanned: bool, config_exists: bool) -> TrackedAction {
    let lower = unicode_lowercase(path);
    if has_suffix(lower, seq!['.', 'd', 's', '_', 's', 't', 'o', 'r', 'e']) || contains_seq(lower, seq!['/', '.']) {
        TrackedAction::Purge
    } else if has_prefix(path, seq!['.', 'n', 'o', 'd', 'a', '/', 's', 'y', 'n', 'c', '/']) {
        TrackedAction::Keep
    } else if path == seq!['.', 'n', 'o', 'd', 'a', '/', 'v', 'a', 'u', 'l', 't', '_', 'c', 'o', 'n', 'f', 'i', 'g', '.', 'j', 's', 'o', 'n'] && config_exists {
        TrackedAction::Keep
    } else if !scanned {
        if markdown_path(path) { TrackedAction::DeleteNote } else { TrackedAction::MarkDirty }
    } else {
        TrackedAction::Keep
    }
}

/// Decides the fate of a tracked path, given whether the scan saw it and whether the
/// vault configuration file exists (see [`tracked_action_spec`]).
pub fn tracked_action(path: &str, scanned: bool, config_exists: bool) -> (r: TrackedAction)
    ensures
        r == tracked_action_spec(path@, scanned, config_exists),
{
    let lower = to_lowercase(path);
    let lc = chars_of(lower.as_str());
    let ds = ['.', 'd', 's', '_', 's', 't', 'o', 'r', 'e'];
    let hidden = ['/', '.'];
    assert(ds@ =~= seq!['.', 'd', 's', '_', 's', 't', 'o', 'r', 'e']);
    assert(hidden@ =~= seq!['/', '.']);
    if ends_with_chars(lc.as_slice(), &ds) || contains(lc.as_slice(), &hidden) {
        return TrackedAction::Purge;
    }
    let c = chars_of(path);
    let sync = ['.', 'n', 'o', 'd', 'a', '/', 's', 'y', 'n', 'c', '/'];
    assert(sync@ =~= seq!['.', 'n', 'o', 'd', 'a', '/', 's', 'y', 'n', 'c', '/']);
    if starts_with(c.as_slice(), &sync) {
        return TrackedAction::Keep;
    }
    let config = ['.', 'n', 'o', 'd', 'a', '/', 'v', 'a', 'u', 'l', 't', '_', 'c', 'o', 'n', 'f', 'i', 'g', '.', 'j', 's', 'o', 'n'];
    assert(config@ =~= seq!['.', 'n', 'o', 'd', 'a', '/', 'v', 'a', 'u', 'l', 't', '_', 'c', 'o', 'n', 'f', 'i', 'g', '.', 'j', 's', 'o', 'n']);
    if chars_eq(c.as_slice(), &config) && config_exists {
        return TrackedAction::Keep;
    }
    if !scanned {
        if is_markdown_path(path) {
            return TrackedAction::DeleteNote;
        }
        return TrackedAction::MarkDirty;
    }
    TrackedAction::Keep
}

} // verus!
