//! Three-way synchronisation planning: local notes and raw files are compared with
//! the remote listing and with what the previous synchronisation recorded.
use vstd::prelude::*;
use crate::text::{has_prefix, chars_of, string_of, starts_with, chars_eq, extend_chars};
use crate::paths::{relative_path_spec, get_relative_path};
use crate::time::{Timestamp, a_second_apart, seconds_apart, last_modified_instant, parse_last_modified};
use crate::models::{Note, NoteView, RemoteEntry, RemoteEntryView, RemoteFileMetadata, RemoteState, FileState, file_paths, opt_view};

verus! {

/// A local note together with the size in bytes of its Markdown rendering
/// (frontmatter and body; 0 where rendering failed).
#[derive(Debug)]
pub struct LocalNote {
    pub note: Note,
    pub markdown_size: u64,
}

/// A raw, immutable local file (an attachment or a history snapshot).
#[derive(Debug)]
pub struct LocalRawFile {
    pub relative_path: String,
    pub size: u64,
    pub modified: Timestamp,
}

/// A single synchronisation step.
#[derive(Debug)]
pub enum SyncAction {
    /// The local file is uploaded to the remote server.
    Upload { relative_path: String },
    /// The remote file is downloaded into the vault.
    Download { relative_path: String, remote_entry: RemoteEntry },
    /// The file was deleted locally; it is deleted on the remote server.
    DeleteRemote { relative_path: String },
    /// The file was deleted remotely; it is deleted from the vault.
    DeleteLocal { relative_path: String },
    /// Both sides changed independently.
    Conflict { relative_path: String, local_note: Note, remote_entry: RemoteEntry },
}

/// Abstract value of a synchronisation step.
pub enum SyncActionView {
    Upload(Seq<char>),
    Download(Seq<char>, RemoteEntryView),
    DeleteRemote(Seq<char>),
    DeleteLocal(Seq<char>),
    Conflict(Seq<char>, NoteView, RemoteEntryView),
}

impl View for SyncAction {
    type V = SyncActionView;

    open spec fn view(&self) -> SyncActionView {
        match self {
            SyncAction::Upload { relative_path } => SyncActionView::Upload(relative_path@),
            SyncAction::Download { relative_path, remote_entry } => SyncActionView::Download(relative_path@, remote_entry@),
            SyncAction::DeleteRemote { relative_path } => SyncActionView::DeleteRemote(relative_path@),
            SyncAction::DeleteLocal { relative_path } => SyncActionView::DeleteLocal(relative_path@),
            SyncAction::Conflict { relative_path, local_note, remote_entry } => SyncActionView::Conflict(relative_path@, local_note@, remote_entry@),
        }
    }
}

/// The path an action is about.
pub open spec fn action_path(a: SyncActionView) -> Seq<char> {
    match a {
        SyncActionView::Upload(p) => p,
        SyncActionView::Download(p, _) => p,
        SyncActionView::DeleteRemote(p) => p,
        SyncActionView::DeleteLocal(p) => p,
        SyncActionView::Conflict(p, _, _) => p,
    }
}

/// The list of actions of one synchronisation.
#[derive(Debug)]
pub struct SyncPlan {
    pub actions: Vec<SyncAction>,
}

/// Abstract value of a list of actions.
pub open spec fn actions_view(v: Seq<SyncAction>) -> Seq<SyncActionView> {
    v.map_values(|a: SyncAction| a@)
}

// ---------------------------------------------------------------------------
// Change detection
// ---------------------------------------------------------------------------

/// The remote entry differs from what was recorded: by ETag, else by last-modified time
/// (a second or more apart), else by size.
pub open spec fn remote_changed(remote: RemoteEntryView, previous: RemoteFileMetadata) -> bool {
    let etag_changed = match remote.etag {
        Some(re) => match previous.etag {
            Some(pe) => re != pe@,
            None => true,
        },
        None => false,
    };
    let time_changed = match remote.last_modified {
        Some(text) => match last_modified_instant(text) {
            Some(rl) => match previous.last_modified {
                Some(pl) => a_second_apart(rl, pl),
                None => true,
            },
            None => false,
        },
        None => false,
    };
    let size_changed = match remote.size {
        Some(s) => s != previous.size,
        None => false,
    };
    etag_changed || time_changed || size_changed
}

/// The local note differs from what was recorded: by its update time (against the
/// recorded local update time, else the recorded remote time), else by size.
pub open spec fn local_changed(updated_at: Timestamp, size: u64, previous: RemoteFileMetadata) -> bool {
    let time_changed = match previous.local_updated_at {
        Some(lu) => a_second_apart(updated_at, lu),
        None => match previous.last_modified {
            Some(lm) => a_second_apart(updated_at, lm),
            None => true,
        },
    };
    time_changed || size != previous.size
}

/// The local note and the remote entry agree in time (under a second apart) and size.
pub open spec fn local_remote_identical(updated_at: Timestamp, size: u64, remote: RemoteEntryView) -> bool {
    match remote.last_modified {
        Some(text) => match last_modified_instant(text) {
            Some(rl) => !a_second_apart(updated_at, rl) && match remote.size {
                Some(rs) => size == rs,
                None => false,
            },
            None => false,
        },
        None => false,
    }
}

/// `true` when the remote entry changed since `previous` was recorded.
pub fn is_remote_changed(remote: &RemoteEntry, previous: &RemoteFileMetadata) -> (r: bool)
    ensures
        r == remote_changed(remote@, *previous),
{
    if let Some(re) = &remote.etag {
        match &previous.etag {
            Some(pe) => {
                if !(*re == *pe) {
                    return true;
                }
            },
            None => {
                return true;
            },
        }
    }
    if let Some(text) = &remote.last_modified {
        if let Some(rl) = parse_last_modified(text.as_str()) {
            match previous.last_modified {
                Some(pl) => {
                    if seconds_apart(rl, pl) {
                        return true;
                    }
                },
                None => {
                    return true;
                },
            }
        }
    }
    if let Some(s) = remote.size {
        if s != previous.size {
            return true;
        }
    }
    false
}

/// `true` when the local note changed since `previous` was recorded; `markdown_size` is
/// the size of the note's Markdown rendering.
pub fn is_local_changed(local: &Note, markdown_size: u64, previous: &RemoteFileMetadata) -> (r: bool)
    ensures
        r == local_changed(local.updated_at, markdown_size, *previous),
{
    match previous.local_updated_at {
        Some(lu) => {
            if seconds_apart(local.updated_at, lu) {
                return true;
            }
        },
        None => match previous.last_modified {
            Some(lm) => {
                if seconds_apart(local.updated_at, lm) {
                    return true;
                }
            },
            None => {
                return true;
            },
        },
    }
    markdown_size != previous.size
}

/// `true` when the local note and the remote entry agree in time and size.
pub fn is_local_remote_identical(local: &Note, markdown_size: u64, remote: &RemoteEntry) -> (r: bool)
    ensures
        r == local_remote_identical(local.updated_at, markdown_size, remote@),
{
    match &remote.last_modified {
        Some(text) => match parse_last_modified(text.as_str()) {
            Some(rl) => {
                if seconds_apart(local.updated_at, rl) {
                    return false;
                }
            },
            None => {
                return false;
            },
        },
        None => {
            return false;
        },
    }
    match remote.size {
        Some(rs) => markdown_size == rs,
        None => false,
    }
}

// ---------------------------------------------------------------------------
// Keys and lookups
// ---------------------------------------------------------------------------

/// The characters `.md`.
pub open spec fn md_suffix() -> Seq<char> {
    seq!['.', 'm', 'd']
}

/// The characters `.noda/`.
pub open spec fn noda_prefix() -> Seq<char> {
    seq!['.', 'n', 'o', 'd', 'a', '/']
}

/// The characters `.noda/attachments/`.
pub open spec fn attachments_prefix() -> Seq<char> {
    seq!['.', 'n', 'o', 'd', 'a', '/', 'a', 't', 't', 'a', 'c', 'h', 'm', 'e', 'n', 't', 's', '/']
}

/// The characters `.noda/history/`.
pub open spec fn history_prefix() -> Seq<char> {
    seq!['.', 'n', 'o', 'd', 'a', '/', 'h', 'i', 's', 't', 'o', 'r', 'y', '/']
}

/// A raw (attachment or history) path.
pub open spec fn is_raw_path(p: Seq<char>) -> bool {
    has_prefix(p, attachments_prefix()) || has_prefix(p, history_prefix())
}

/// Whether a path takes part in a plan: raw plans take raw paths, note plans take
/// every path outside `.noda/`.
pub open spec fn path_in_scope(p: Seq<char>, raw: bool) -> bool {
    if raw {
        is_raw_path(p)
    } else {
        !has_prefix(p, noda_prefix())
    }
}

/// The vault path of a local note: its id and `.md`.
pub open spec fn note_key(n: LocalNote) -> Seq<char> {
    n.note.id.0@ + md_suffix()
}

/// The keys of the local notes.
pub open spec fn note_keys(notes: Seq<LocalNote>) -> Seq<Seq<char>> {
    Seq::new(notes.len(), |i: int| note_key(notes[i]))
}

/// The keys of the local raw files.
pub open spec fn raw_keys(files: Seq<LocalRawFile>) -> Seq<Seq<char>> {
    Seq::new(files.len(), |i: int| files[i].relative_path@)
}

/// The vault-relative paths of the remote entries.
pub open spec fn remote_keys(entries: Seq<RemoteEntry>, root: Seq<char>) -> Seq<Seq<char>> {
    Seq::new(entries.len(), |i: int| relative_path_spec(entries[i].href@, root))
}

/// Which remote entries take part: files (not collections) whose path is in scope.
pub open spec fn remote_included(entries: Seq<RemoteEntry>, root: Seq<char>, raw: bool) -> Seq<bool> {
    Seq::new(entries.len(), |i: int| !entries[i].is_collection && path_in_scope(relative_path_spec(entries[i].href@, root), raw))
}

/// Which recorded paths take part.
pub open spec fn previous_included(files: Seq<FileState>, raw: bool) -> Seq<bool> {
    Seq::new(files.len(), |i: int| path_in_scope(files[i].path@, raw))
}

/// `n` times `true`.
pub open spec fn all_true(n: nat) -> Seq<bool> {
    Seq::new(n, |i: int| true)
}

/// The keys among the first `n` whose flag is set, in order.
pub open spec fn select(keys: Seq<Seq<char>>, inc: Seq<bool>, n: int) -> Seq<Seq<char>>
    decreases n,
{
    if n <= 0 {
        Seq::empty()
    } else if inc[n - 1] {
        select(keys, inc, n - 1).push(keys[n - 1])
    } else {
        select(keys, inc, n - 1)
    }
}

/// The first `n` elements of `s` without repetitions, first occurrences kept.
pub open spec fn dedup(s: Seq<Seq<char>>, n: int) -> Seq<Seq<char>>
    decreases n,
{
    if n <= 0 {
        Seq::empty()
    } else if dedup(s, n - 1).contains(s[n - 1]) {
        dedup(s, n - 1)
    } else {
        dedup(s, n - 1).push(s[n - 1])
    }
}

/// Index of the last among the first `n` keys that is flagged and equals `path`.
pub open spec fn last_index(keys: Seq<Seq<char>>, inc: Seq<bool>, path: Seq<char>, n: int) -> Option<int>
    decreases n,
{
    if n <= 0 {
        None
    } else if inc[n - 1] && keys[n - 1] == path {
        Some(n - 1)
    } else {
        last_index(keys, inc, path, n - 1)
    }
}

/// Every path that a plan considers: local keys, remote keys in scope and recorded
/// paths in scope, without repetitions.
pub open spec fn plan_paths(local: Seq<Seq<char>>, entries: Seq<RemoteEntry>, files: Seq<FileState>, root: Seq<char>, raw: bool) -> Seq<Seq<char>> {
    let rk = remote_keys(entries, root);
    let ri = remote_included(entries, root, raw);
    let pk = file_paths(files);
    let pi = previous_included(files, raw);
    let cand = local + select(rk, ri, rk.len() as int) + select(pk, pi, pk.len() as int);
    dedup(cand, cand.len() as int)
}

// ---------------------------------------------------------------------------
// Per-path decisions
// ---------------------------------------------------------------------------

/// The action a note plan takes for `path`, given the local note, the remote entry and
/// the recorded state found for it.
pub open spec fn note_action(path: Seq<char>, l: Option<LocalNote>, r: Option<RemoteEntry>, p: Option<RemoteFileMetadata>) -> Option<SyncActionView> {
    match (l, r, p) {
        (Some(ln), Some(re), Some(pm)) => {
            let lc = local_changed(ln.note.updated_at, ln.markdown_size, pm);
            let rc = remote_changed(re@, pm);
            if lc && rc {
                if !local_remote_identical(ln.note.updated_at, ln.markdown_size, re@) {
                    Some(SyncActionView::Conflict(path, ln.note@, re@))
                } else {
                    None
                }
            } else if lc {
                Some(SyncActionView::Upload(path))
            } else if rc {
                Some(SyncActionView::Download(path, re@))
            } else {
                None
            }
        },
        (Some(ln), Some(re), None) => {
            if !local_remote_identical(ln.note.updated_at, ln.markdown_size, re@) {
                Some(SyncActionView::Conflict(path, ln.note@, re@))
            } else {
                None
            }
        },
        (Some(_), None, Some(_)) => Some(SyncActionView::DeleteLocal(path)),
        (Some(_), None, None) => Some(SyncActionView::Upload(path)),
        (None, Some(_), Some(_)) => Some(SyncActionView::DeleteRemote(path)),
        (None, Some(re), None) => Some(SyncActionView::Download(path, re@)),
        (None, None, _) => None,
    }
}

/// The action a raw plan takes for `path`: raw files are immutable, so a file present
/// on both sides is only uploaded again when the sizes disagree (and the remote size is
/// known and non-zero, and the recorded ETag does not match).
pub open spec fn raw_action(path: Seq<char>, l: Option<LocalRawFile>, r: Option<RemoteEntry>, p: Option<RemoteFileMetadata>) -> Option<SyncActionView> {
    match (l, r, p) {
        (Some(lf), Some(re), Some(pm)) => {
            let remote_size: u64 = match re.size { Some(s) => s, None => 0 };
            let etag_matches = match (re.etag, pm.etag) {
                (Some(a), Some(b)) => a@ == b@,
                _ => false,
            };
            if etag_matches || lf.size == remote_size || remote_size == 0 {
                None
            } else {
                Some(SyncActionView::Upload(path))
            }
        },
        (Some(lf), Some(re), None) => {
            let remote_size: u64 = match re.size { Some(s) => s, None => 0 };
            if lf.size == remote_size || remote_size == 0 {
                None
            } else {
                Some(SyncActionView::Upload(path))
            }
        },
        (Some(_), None, Some(_)) => Some(SyncActionView::DeleteLocal(path)),
        (Some(_), None, None) => Some(SyncActionView::Upload(path)),
        (None, Some(_), Some(_)) => Some(SyncActionView::DeleteRemote(path)),
        (None, Some(re), None) => Some(SyncActionView::Download(path, re@)),
        (None, None, _) => None,
    }
}

/// The note found for `path`.
pub open spec fn find_note(notes: Seq<LocalNote>, path: Seq<char>) -> Option<LocalNote> {
    match last_index(note_keys(notes), all_true(notes.len()), path, notes.len() as int) {
        Some(j) => Some(notes[j]),
        None => None,
    }
}

/// The raw file found for `path`.
pub open spec fn find_raw(files: Seq<LocalRawFile>, path: Seq<char>) -> Option<LocalRawFile> {
    match last_index(raw_keys(files), all_true(files.len()), path, files.len() as int) {
        Some(j) => Some(files[j]),
        None => None,
    }
}

/// The remote entry found for `path`.
pub open spec fn find_remote(entries: Seq<RemoteEntry>, root: Seq<char>, raw: bool, path: Seq<char>) -> Option<RemoteEntry> {
    match last_index(remote_keys(entries, root), remote_included(entries, root, raw), path, entries.len() as int) {
        Some(j) => Some(entries[j]),
        None => None,
    }
}

/// The record found for `path`.
pub open spec fn find_previous(files: Seq<FileState>, path: Seq<char>) -> Option<RemoteFileMetadata> {
    match last_index(file_paths(files), all_true(files.len()), path, files.len() as int) {
        Some(j) => Some(files[j].meta),
        None => None,
    }
}

/// The note plan over the first `n` paths.
pub open spec fn note_plan_upto(paths: Seq<Seq<char>>, n: int, notes: Seq<LocalNote>, entries: Seq<RemoteEntry>, files: Seq<FileState>, root: Seq<char>) -> Seq<SyncActionView>
    decreases n,
{
    if n <= 0 {
        Seq::empty()
    } else {
        let rest = note_plan_upto(paths, n - 1, notes, entries, files, root);
        let path = paths[n - 1];
        match note_action(path, find_note(notes, path), find_remote(entries, root, false, path), find_previous(files, path)) {
            Some(a) => rest.push(a),
            None => rest,
        }
    }
}

/// The raw plan over the first `n` paths.
pub open spec fn raw_plan_upto(paths: Seq<Seq<char>>, n: int, raws: Seq<LocalRawFile>, entries: Seq<RemoteEntry>, files: Seq<FileState>, root: Seq<char>) -> Seq<SyncActionView>
    decreases n,
{
    if n <= 0 {
        Seq::empty()
    } else {
        let rest = raw_plan_upto(paths, n - 1, raws, entries, files, root);
        let path = paths[n - 1];
        match raw_action(path, find_raw(raws, path), find_remote(entries, root, true, path), find_previous(files, path)) {
            Some(a) => rest.push(a),
            None => rest,
        }
    }
}

/// The note plan: one decision per considered path.
pub open spec fn note_plan(notes: Seq<LocalNote>, entries: Seq<RemoteEntry>, files: Seq<FileState>, root: Seq<char>) -> Seq<SyncActionView> {
    let paths = plan_paths(note_keys(notes), entries, files, root, false);
    note_plan_upto(paths, paths.len() as int, notes, entries, files, root)
}

/// The raw plan: one decision per considered path.
pub open spec fn raw_plan(raws: Seq<LocalRawFile>, entries: Seq<RemoteEntry>, files: Seq<FileState>, root: Seq<char>) -> Seq<SyncActionView> {
    let paths = plan_paths(raw_keys(raws), entries, files, root, true);
    raw_plan_upto(paths, paths.len() as int, raws, entries, files, root)
}

// ---------------------------------------------------------------------------
// Executable planning
// ---------------------------------------------------------------------------

/// Abstract value of a vector of character vectors.
pub open spec fn keys_view(v: Seq<Vec<char>>) -> Seq<Seq<char>> {
    v.map_values(|k: Vec<char>| k@)
}

proof fn lemma_keys_view_push(v: Seq<Vec<char>>, x: Vec<char>)
    ensures
        keys_view(v.push(x)) == keys_view(v).push(x@),
{
    assert(keys_view(v.push(x)) =~= keys_view(v).push(x@));
}

/// The element at an optional index.
pub open spec fn pick<T>(s: Seq<T>, o: Option<usize>) -> Option<T> {
    match o {
        Some(j) => Some(s[j as int]),
        None => None,
    }
}

fn last_index_exec(keys: &Vec<Vec<char>>, inc: &Vec<bool>, path: &[char]) -> (r: Option<usize>)
    requires
        keys@.len() == inc@.len(),
    ensures
        r matches Some(j) ==> j < keys@.len(),
        r == (match last_index(keys_view(keys@), inc@, path@, keys@.len() as int) {
            Some(j) => Some(j as usize),
            None => None::<usize>,
        }),
        last_index(keys_view(keys@), inc@, path@, keys@.len() as int) matches Some(j) ==> 0 <= j < keys@.len(),
{
    let mut found: Option<usize> = None;
    let mut i: usize = 0;
    while i < keys.len()
        invariant
            i <= keys@.len(),
            keys@.len() == inc@.len(),
            found matches Some(j) ==> j < i,
            found == (match last_index(keys_view(keys@), inc@, path@, i as int) {
                Some(j) => Some(j as usize),
                None => None::<usize>,
            }),
            last_index(keys_view(keys@), inc@, path@, i as int) matches Some(j) ==> 0 <= j < i,
        decreases keys.len() - i,
    {
        if inc[i] && chars_eq(keys[i].as_slice(), path) {
            found = Some(i);
        }
        i += 1;
    }
    found
}

fn select_exec(keys: &Vec<Vec<char>>, inc: &Vec<bool>, out: &mut Vec<Vec<char>>)
    requires
        keys@.len() == inc@.len(),
    ensures
        keys_view(final(out)@) == keys_view(old(out)@) + select(keys_view(keys@), inc@, keys@.len() as int),
{
    let mut i: usize = 0;
    assert(keys_view(out@) =~= keys_view(old(out)@) + select(keys_view(keys@), inc@, 0));
    while i < keys.len()
        invariant
            i <= keys@.len(),
            keys@.len() == inc@.len(),
            keys_view(out@) == keys_view(old(out)@) + select(keys_view(keys@), inc@, i as int),
        decreases keys.len() - i,
    {
        if inc[i] {
            let k = crate::text::copy_chars(&keys[i]);
            let ghost before = out@;
            out.push(k);
            proof {
                lemma_keys_view_push(before, k);
                assert(keys_view(keys@)[i as int] == keys@[i as int]@);
            }
            assert(keys_view(out@) =~= keys_view(old(out)@) + select(keys_view(keys@), inc@, i + 1));
        } else {
            assert(keys_view(out@) =~= keys_view(old(out)@) + select(keys_view(keys@), inc@, i + 1));
        }
        i += 1;
    }
}

fn contains_key(v: &Vec<Vec<char>>, k: &[char]) -> (r: bool)
    ensures
        r == keys_view(v@).contains(k@),
{
    let mut i: usize = 0;
    while i < v.len()
        invariant
            i <= v@.len(),
            forall|j: int| 0 <= j < i ==> v@[j]@ != k@,
        decreases v.len() - i,
    {
        if chars_eq(v[i].as_slice(), k) {
            assert(keys_view(v@)[i as int] == k@);
            return true;
        }
        i += 1;
    }
    proof {
        if keys_view(v@).contains(k@) {
            let j = choose|j: int| 0 <= j < keys_view(v@).len() && #[trigger] keys_view(v@)[j] == k@;
            assert(v@[j]@ == k@);
        }
    }
    false
}

fn dedup_exec(s: &Vec<Vec<char>>) -> (r: Vec<Vec<char>>)
    ensures
        keys_view(r@) == dedup(keys_view(s@), s@.len() as int),
{
    let mut r: Vec<Vec<char>> = Vec::new();
    let mut i: usize = 0;
    assert(keys_view(r@) =~= dedup(keys_view(s@), 0));
    while i < s.len()
        invariant
            i <= s@.len(),
            keys_view(r@) == dedup(keys_view(s@), i as int),
        decreases s.len() - i,
    {
        if !contains_key(&r, s[i].as_slice()) {
            let k = crate::text::copy_chars(&s[i]);
            let ghost before = r@;
            r.push(k);
            proof {
                lemma_keys_view_push(before, k);
                assert(keys_view(s@)[i as int] == s@[i as int]@);
            }
            assert(keys_view(r@) =~= dedup(keys_view(s@), i + 1));
        }
        i += 1;
    }
    r
}

fn md_chars() -> (r: Vec<char>)
    ensures
        r@ == md_suffix(),
{
    let r = vec!['.', 'm', 'd'];
    assert(r@ =~= md_suffix());
    r
}

fn noda_chars() -> (r: Vec<char>)
    ensures
        r@ == noda_prefix(),
{
    let r = vec!['.', 'n', 'o', 'd', 'a', '/'];
    assert(r@ =~= noda_prefix());
    r
}

fn attachments_chars() -> (r: Vec<char>)
    ensures
        r@ == attachments_prefix(),
{
    let r = vec!['.', 'n', 'o', 'd', 'a', '/', 'a', 't', 't', 'a', 'c', 'h', 'm', 'e', 'n', 't', 's', '/'];
    assert(r@ =~= attachments_prefix());
    r
}

fn history_chars() -> (r: Vec<char>)
    ensures
        r@ == history_prefix(),
{
    let r = vec!['.', 'n', 'o', 'd', 'a', '/', 'h', 'i', 's', 't', 'o', 'r', 'y', '/'];
    assert(r@ =~= history_prefix());
    r
}

/// Whether `p` takes part in a raw (`raw == true`) or a note plan.
pub fn in_scope(p: &[char], raw: bool) -> (r: bool)
    ensures
        r == path_in_scope(p@, raw),
{
    if raw {
        let a = attachments_chars();
        let h = history_chars();
        starts_with(p, a.as_slice()) || starts_with(p, h.as_slice())
    } else {
        let n = noda_chars();
        !starts_with(p, n.as_slice())
    }
}

/// Remote keys and inclusion flags.
#[verifier::rlimit(40)]
fn remote_keys_exec(entries: &[RemoteEntry], root_path: &str, raw: bool) -> (r: (Vec<Vec<char>>, Vec<bool>))
    ensures
        keys_view(r.0@) == remote_keys(entries@, root_path@),
        r.1@ == remote_included(entries@, root_path@, raw),
        r.0@.len() == entries@.len(),
        r.1@.len() == entries@.len(),
{
    let mut keys: Vec<Vec<char>> = Vec::new();
    let mut inc: Vec<bool> = Vec::new();
    let mut i: usize = 0;
    while i < entries.len()
        invariant
            i <= entries@.len(),
            keys_view(keys@) == remote_keys(entries@, root_path@).take(i as int),
            inc@ == remote_included(entries@, root_path@, raw).take(i as int),
        decreases entries.len() - i,
    {
        let rel = get_relative_path(entries[i].href.as_str(), root_path);
        let k = chars_of(rel.as_str());
        let f = !entries[i].is_collection && in_scope(k.as_slice(), raw);
        let ghost before = keys@;
        keys.push(k);
        inc.push(f);
        proof {
            lemma_keys_view_push(before, k);
        }
        assert(keys_view(keys@) =~= remote_keys(entries@, root_path@).take(i + 1));
        assert(inc@ =~= remote_included(entries@, root_path@, raw).take(i + 1));
        i += 1;
    }
    assert(keys_view(keys@) =~= remote_keys(entries@, root_path@));
    assert(inc@ =~= remote_included(entries@, root_path@, raw));
    (keys, inc)
}

/// Recorded paths and inclusion flags.
fn previous_keys_exec(files: &Vec<FileState>, raw: bool) -> (r: (Vec<Vec<char>>, Vec<bool>))
    ensures
        keys_view(r.0@) == file_paths(files@),
        r.1@ == previous_included(files@, raw),
        r.0@.len() == files@.len(),
        r.1@.len() == files@.len(),
{
    let mut keys: Vec<Vec<char>> = Vec::new();
    let mut inc: Vec<bool> = Vec::new();
    let mut i: usize = 0;
    while i < files.len()
        invariant
            i <= files@.len(),
            keys_view(keys@) == file_paths(files@).take(i as int),
            inc@ == previous_included(files@, raw).take(i as int),
        decreases files.len() - i,
    {
        let k = chars_of(files[i].path.as_str());
        let f = in_scope(k.as_slice(), raw);
        let ghost before = keys@;
        keys.push(k);
        inc.push(f);
        proof {
            lemma_keys_view_push(before, k);
            assert(file_paths(files@)[i as int] == files@[i as int].path@);
        }
        assert(keys_view(keys@) =~= file_paths(files@).take(i + 1));
        assert(inc@ =~= previous_included(files@, raw).take(i + 1));
        i += 1;
    }
    assert(keys_view(keys@) =~= file_paths(files@));
    assert(inc@ =~= previous_included(files@, raw));
    (keys, inc)
}

fn trues(n: usize) -> (r: Vec<bool>)
    ensures
        r@ == all_true(n as nat),
{
    let mut r: Vec<bool> = Vec::new();
    let mut i: usize = 0;
    while i < n
        invariant
            i <= n,
            r@ == all_true(i as nat),
        decreases n - i,
    {
        r.push(true);
        assert(r@ =~= all_true((i + 1) as nat));
        i += 1;
    }
    r
}

/// Candidate paths of a plan, deduplicated.
fn plan_paths_exec(local: &Vec<Vec<char>>, rk: &Vec<Vec<char>>, ri: &Vec<bool>, pk: &Vec<Vec<char>>, pi: &Vec<bool>) -> (r: Vec<Vec<char>>)
    requires
        rk@.len() == ri@.len(),
        pk@.len() == pi@.len(),
    ensures
        ({
            let cand = keys_view(local@) + select(keys_view(rk@), ri@, rk@.len() as int) + select(keys_view(pk@), pi@, pk@.len() as int);
            keys_view(r@) == dedup(cand, cand.len() as int)
        }),
{
    let mut cand: Vec<Vec<char>> = Vec::new();
    select_exec(local, &trues(local.len()), &mut cand);
    proof {
        lemma_select_all(keys_view(local@), local@.len() as int);
    }
    select_exec(rk, ri, &mut cand);
    select_exec(pk, pi, &mut cand);
    assert(keys_view(cand@) =~= keys_view(local@) + select(keys_view(rk@), ri@, rk@.len() as int) + select(keys_view(pk@), pi@, pk@.len() as int));
    dedup_exec(&cand)
}

proof fn lemma_select_all(keys: Seq<Seq<char>>, n: int)
    requires
        0 <= n <= keys.len(),
    ensures
        select(keys, all_true(keys.len()), n) == keys.take(n),
    decreases n,
{
    if n > 0 {
        lemma_select_all(keys, n - 1);
        assert(keys.take(n - 1).push(keys[n - 1]) =~= keys.take(n));
    } else {
        assert(keys.take(0) =~= Seq::<Seq<char>>::empty());
    }
}

fn lookup_note(lkeys: &Vec<Vec<char>>, ltrue: &Vec<bool>, notes: &[LocalNote], path: &[char]) -> (r: Option<usize>)
    requires
        keys_view(lkeys@) == note_keys(notes@),
        ltrue@ == all_true(notes@.len()),
        lkeys@.len() == notes@.len(),
    ensures
        r matches Some(a) ==> a < notes@.len(),
        pick(notes@, r) == find_note(notes@, path@),
{
    let r = last_index_exec(lkeys, ltrue, path);
    proof {
        match last_index(keys_view(lkeys@), ltrue@, path@, lkeys@.len() as int) {
            Some(j) => {
                assert(0 <= j < lkeys@.len());
                assert(lkeys@.len() == lkeys.len());
                assert(j as usize as int == j);
            },
            None => {},
        }
    }
    r
}

fn lookup_raw(lkeys: &Vec<Vec<char>>, ltrue: &Vec<bool>, raws: &[LocalRawFile], path: &[char]) -> (r: Option<usize>)
    requires
        keys_view(lkeys@) == raw_keys(raws@),
        ltrue@ == all_true(raws@.len()),
        lkeys@.len() == raws@.len(),
    ensures
        r matches Some(a) ==> a < raws@.len(),
        pick(raws@, r) == find_raw(raws@, path@),
{
    let r = last_index_exec(lkeys, ltrue, path);
    proof {
        match last_index(keys_view(lkeys@), ltrue@, path@, lkeys@.len() as int) {
            Some(j) => {
                assert(0 <= j < lkeys@.len());
                assert(lkeys@.len() == lkeys.len());
                assert(j as usize as int == j);
            },
            None => {},
        }
    }
    r
}

fn lookup_remote(rk: &Vec<Vec<char>>, ri: &Vec<bool>, entries: &[RemoteEntry], root_path: &str, raw: bool, path: &[char]) -> (r: Option<usize>)
    requires
        keys_view(rk@) == remote_keys(entries@, root_path@),
        ri@ == remote_included(entries@, root_path@, raw),
        rk@.len() == entries@.len(),
    ensures
        r matches Some(b) ==> b < entries@.len(),
        pick(entries@, r) == find_remote(entries@, root_path@, raw, path@),
{
    let r = last_index_exec(rk, ri, path);
    proof {
        match last_index(keys_view(rk@), ri@, path@, rk@.len() as int) {
            Some(j) => {
                assert(0 <= j < rk@.len());
                assert(rk@.len() == rk.len());
                assert(j as usize as int == j);
            },
            None => {},
        }
    }
    r
}

fn lookup_previous(pk: &Vec<Vec<char>>, ptrue: &Vec<bool>, files: &Vec<FileState>, path: &[char]) -> (r: Option<usize>)
    requires
        keys_view(pk@) == file_paths(files@),
        ptrue@ == all_true(files@.len()),
        pk@.len() == files@.len(),
    ensures
        r matches Some(c) ==> c < files@.len(),
        (match r { Some(c) => Some(files@[c as int].meta), None => None::<RemoteFileMetadata> }) == find_previous(files@, path@),
{
    let r = last_index_exec(pk, ptrue, path);
    proof {
        match last_index(keys_view(pk@), ptrue@, path@, pk@.len() as int) {
            Some(j) => {
                assert(0 <= j < pk@.len());
                assert(pk@.len() == pk.len());
                assert(j as usize as int == j);
            },
            None => {},
        }
    }
    r
}

fn decide_note(path: &[char], notes: &[LocalNote], li: Option<usize>, entries: &[RemoteEntry], rj: Option<usize>, files: &Vec<FileState>, pj: Option<usize>) -> (r: Option<SyncAction>)
    requires
        li matches Some(a) ==> a < notes@.len(),
        rj matches Some(b) ==> b < entries@.len(),
        pj matches Some(c) ==> c < files@.len(),
    ensures
        (match r {
            Some(a) => Some(a@),
            None => None::<SyncActionView>,
        }) == note_action(path@, pick(notes@, li), pick(entries@, rj), match pj {
            Some(c) => Some(files@[c as int].meta),
            None => None,
        }),
{
    match (li, rj, pj) {
        (Some(a), Some(b), Some(c)) => {
            let ln = &notes[a];
            let re = &entries[b];
            let pm = &files[c].meta;
            let lc = is_local_changed(&ln.note, ln.markdown_size, pm);
            let rc = is_remote_changed(re, pm);
            if lc && rc {
                if !is_local_remote_identical(&ln.note, ln.markdown_size, re) {
                    Some(SyncAction::Conflict { relative_path: string_of(path), local_note: ln.note.copy(), remote_entry: re.copy() })
                } else {
                    None
                }
            } else if lc {
                Some(SyncAction::Upload { relative_path: string_of(path) })
            } else if rc {
                Some(SyncAction::Download { relative_path: string_of(path), remote_entry: re.copy() })
            } else {
                None
            }
        },
        (Some(a), Some(b), None) => {
            let ln = &notes[a];
            let re = &entries[b];
            if !is_local_remote_identical(&ln.note, ln.markdown_size, re) {
                Some(SyncAction::Conflict { relative_path: string_of(path), local_note: ln.note.copy(), remote_entry: re.copy() })
            } else {
                None
            }
        },
        (Some(_), None, Some(_)) => Some(SyncAction::DeleteLocal { relative_path: string_of(path) }),
        (Some(_), None, None) => Some(SyncAction::Upload { relative_path: string_of(path) }),
        (None, Some(_), Some(_)) => Some(SyncAction::DeleteRemote { relative_path: string_of(path) }),
        (None, Some(b), None) => Some(SyncAction::Download { relative_path: string_of(path), remote_entry: entries[b].copy() }),
        (None, None, _) => None,
    }
}

proof fn lemma_note_plan_step(paths: Seq<Seq<char>>, k: int, notes: Seq<LocalNote>, entries: Seq<RemoteEntry>, files: Seq<FileState>, root: Seq<char>)
    requires
        0 <= k,
    ensures
        note_plan_upto(paths, k + 1, notes, entries, files, root) == match note_action(paths[k], find_note(notes, paths[k]), find_remote(entries, root, false, paths[k]), find_previous(files, paths[k])) {
            Some(a) => note_plan_upto(paths, k, notes, entries, files, root).push(a),
            None => note_plan_upto(paths, k, notes, entries, files, root),
        },
{
}

/// Core sync delta calculation for notes (three-way: local notes, remote listing, and
/// the state recorded by the previous synchronisation).
///
/// Every path among the local note keys (`<id>.md`), the remote files outside `.noda/`
/// and the recorded paths outside `.noda/` is considered once:
/// changed on one side only: copied over; changed on both sides: a conflict unless the
/// two sides agree in time and size; present on one side and recorded: deleted on the
/// other side; new on one side: copied over; gone on both sides: nothing.
pub fn calculate_delta(local_notes: &[LocalNote], remote_entries: &[RemoteEntry], previous_state: &RemoteState, root_path: &str) -> (plan: SyncPlan)
    ensures
        actions_view(plan.actions@) == note_plan(local_notes@, remote_entries@, previous_state.files@, root_path@),
{
    let mut lkeys: Vec<Vec<char>> = Vec::new();
    let mut i: usize = 0;
    while i < local_notes.len()
        invariant
            i <= local_notes@.len(),
            keys_view(lkeys@) == note_keys(local_notes@).take(i as int),
        decreases local_notes.len() - i,
    {
        let mut k = chars_of(local_notes[i].note.id.0.as_str());
        let md = md_chars();
        extend_chars(&mut k, md.as_slice());
        let ghost before = lkeys@;
        lkeys.push(k);
        proof {
            lemma_keys_view_push(before, k);
        }
        assert(keys_view(lkeys@) =~= note_keys(local_notes@).take(i + 1));
        i += 1;
    }
    assert(keys_view(lkeys@) =~= note_keys(local_notes@));
    assert(lkeys@.len() == local_notes@.len());
    let ltrue = trues(local_notes.len());
    let (rk, ri) = remote_keys_exec(remote_entries, root_path, false);
    let (pk, pi) = previous_keys_exec(&previous_state.files, false);
    let ptrue = trues(previous_state.files.len());
    let paths = plan_paths_exec(&lkeys, &rk, &ri, &pk, &pi);
    let ghost gpaths = keys_view(paths@);
    let mut actions: Vec<SyncAction> = Vec::new();
    let mut k: usize = 0;
    while k < paths.len()
        invariant
            k <= paths@.len(),
            gpaths == keys_view(paths@),
            keys_view(lkeys@) == note_keys(local_notes@),
            ltrue@ == all_true(local_notes@.len()),
            keys_view(rk@) == remote_keys(remote_entries@, root_path@),
            ri@ == remote_included(remote_entries@, root_path@, false),
            keys_view(pk@) == file_paths(previous_state.files@),
            ptrue@ == all_true(previous_state.files@.len()),
            lkeys@.len() == local_notes@.len(),
            rk@.len() == remote_entries@.len(),
            ri@.len() == remote_entries@.len(),
            pk@.len() == previous_state.files@.len(),
            actions_view(actions@) == note_plan_upto(gpaths, k as int, local_notes@, remote_entries@, previous_state.files@, root_path@),
        decreases paths.len() - k,
    {
        let path = &paths[k];
        let li = lookup_note(&lkeys, &ltrue, local_notes, path.as_slice());
        let rj = lookup_remote(&rk, &ri, remote_entries, root_path, false, path.as_slice());
        let pj = lookup_previous(&pk, &ptrue, &previous_state.files, path.as_slice());
        let decided = decide_note(path.as_slice(), local_notes, li, remote_entries, rj, &previous_state.files, pj);
        proof {
            assert(keys_view(paths@)[k as int] == paths@[k as int]@);
            assert(gpaths[k as int] == path@);
        }
        let ghost before = actions@;
        match decided {
            Some(a) => {
                actions.push(a);
            },
            None => {},
        }
        proof {
            lemma_note_plan_step(gpaths, k as int, local_notes@, remote_entries@, previous_state.files@, root_path@);
            assert(actions_view(actions@) =~= match decided {
                Some(a) => actions_view(before).push(a@),
                None => actions_view(before),
            });
        }
        k += 1;
    }
    SyncPlan { actions }
}

fn decide_raw(path: &[char], raws: &[LocalRawFile], li: Option<usize>, entries: &[RemoteEntry], rj: Option<usize>, files: &Vec<FileState>, pj: Option<usize>) -> (r: Option<SyncAction>)
    requires
        li matches Some(a) ==> a < raws@.len(),
        rj matches Some(b) ==> b < entries@.len(),
        pj matches Some(c) ==> c < files@.len(),
    ensures
        (match r {
            Some(a) => Some(a@),
            None => None::<SyncActionView>,
        }) == raw_action(path@, pick(raws@, li), pick(entries@, rj), match pj {
            Some(c) => Some(files@[c as int].meta),
            None => None,
        }),
{
    match (li, rj, pj) {
        (Some(a), Some(b), Some(c)) => {
            let lf = &raws[a];
            let re = &entries[b];
            let pm = &files[c].meta;
            let remote_size: u64 = match re.size {
                Some(s) => s,
                None => 0,
            };
            let etag_matches = match (&re.etag, &pm.etag) {
                (Some(x), Some(y)) => *x == *y,
                _ => false,
            };
            if etag_matches || lf.size == remote_size || remote_size == 0 {
                None
            } else {
                Some(SyncAction::Upload { relative_path: string_of(path) })
            }
        },
        (Some(a), Some(b), None) => {
            let lf = &raws[a];
            let re = &entries[b];
            let remote_size: u64 = match re.size {
                Some(s) => s,
                None => 0,
            };
            if lf.size == remote_size || remote_size == 0 {
                None
            } else {
                Some(SyncAction::Upload { relative_path: string_of(path) })
            }
        },
        (Some(_), None, Some(_)) => Some(SyncAction::DeleteLocal { relative_path: string_of(path) }),
        (Some(_), None, None) => Some(SyncAction::Upload { relative_path: string_of(path) }),
        (None, Some(_), Some(_)) => Some(SyncAction::DeleteRemote { relative_path: string_of(path) }),
        (None, Some(b), None) => Some(SyncAction::Download { relative_path: string_of(path), remote_entry: entries[b].copy() }),
        (None, None, _) => None,
    }
}

proof fn lemma_raw_plan_step(paths: Seq<Seq<char>>, k: int, raws: Seq<LocalRawFile>, entries: Seq<RemoteEntry>, files: Seq<FileState>, root: Seq<char>)
    requires
        0 <= k,
    ensures
        raw_plan_upto(paths, k + 1, raws, entries, files, root) == match raw_action(paths[k], find_raw(raws, paths[k]), find_remote(entries, root, true, paths[k]), find_previous(files, paths[k])) {
            Some(a) => raw_plan_upto(paths, k, raws, entries, files, root).push(a),
            None => raw_plan_upto(paths, k, raws, entries, files, root),
        },
{
}

/// Synchronisation plan for raw, immutable files under `.noda/attachments/` and
/// `.noda/history/`. These never conflict: they are uploaded, downloaded or deleted to
/// keep both sides consistent; a file on both sides is uploaded again only when the
/// sizes disagree.
pub fn calculate_raw_delta(local_raw: &[LocalRawFile], remote_entries: &[RemoteEntry], previous_state: &RemoteState, root_path: &str) -> (plan: SyncPlan)
    ensures
        actions_view(plan.actions@) == raw_plan(local_raw@, remote_entries@, previous_state.files@, root_path@),
{
    let mut lkeys: Vec<Vec<char>> = Vec::new();
    let mut i: usize = 0;
    while i < local_raw.len()
        invariant
            i <= local_raw@.len(),
            keys_view(lkeys@) == raw_keys(local_raw@).take(i as int),
            lkeys@.len() == i,
        decreases local_raw.len() - i,
    {
        let k = chars_of(local_raw[i].relative_path.as_str());
        let ghost before = lkeys@;
        lkeys.push(k);
        proof {
            lemma_keys_view_push(before, k);
        }
        assert(keys_view(lkeys@) =~= raw_keys(local_raw@).take(i + 1));
        i += 1;
    }
    assert(keys_view(lkeys@) =~= raw_keys(local_raw@));
    let ltrue = trues(local_raw.len());
    let (rk, ri) = remote_keys_exec(remote_entries, root_path, true);
    let (pk, pi) = previous_keys_exec(&previous_state.files, true);
    let ptrue = trues(previous_state.files.len());
    let paths = plan_paths_exec(&lkeys, &rk, &ri, &pk, &pi);
    let ghost gpaths = keys_view(paths@);
    let mut actions: Vec<SyncAction> = Vec::new();
    let mut k: usize = 0;
    while k < paths.len()
        invariant
            k <= paths@.len(),
            gpaths == keys_view(paths@),
            keys_view(lkeys@) == raw_keys(local_raw@),
            ltrue@ == all_true(local_raw@.len()),
            keys_view(rk@) == remote_keys(remote_entries@, root_path@),
            ri@ == remote_included(remote_entries@, root_path@, true),
            keys_view(pk@) == file_paths(previous_state.files@),
            ptrue@ == all_true(previous_state.files@.len()),
            lkeys@.len() == local_raw@.len(),
            rk@.len() == remote_entries@.len(),
            ri@.len() == remote_entries@.len(),
            pk@.len() == previous_state.files@.len(),
            actions_view(actions@) == raw_plan_upto(gpaths, k as int, local_raw@, remote_entries@, previous_state.files@, root_path@),
        decreases paths.len() - k,
    {
        let path = &paths[k];
        let li = lookup_raw(&lkeys, &ltrue, local_raw, path.as_slice());
        let rj = lookup_remote(&rk, &ri, remote_entries, root_path, true, path.as_slice());
        let pj = lookup_previous(&pk, &ptrue, &previous_state.files, path.as_slice());
        let decided = decide_raw(path.as_slice(), local_raw, li, remote_entries, rj, &previous_state.files, pj);
        proof {
            assert(keys_view(paths@)[k as int] == paths@[k as int]@);
            assert(gpaths[k as int] == path@);
        }
        let ghost before = actions@;
        match decided {
            Some(a) => {
                actions.push(a);
            },
            None => {},
        }
        proof {
            lemma_raw_plan_step(gpaths, k as int, local_raw@, remote_entries@, previous_state.files@, root_path@);
            assert(actions_view(actions@) =~= match decided {
                Some(a) => actions_view(before).push(a@),
                None => actions_view(before),
            });
        }
        k += 1;
    }
    SyncPlan { actions }
}

// ---------------------------------------------------------------------------
// Laws
// ---------------------------------------------------------------------------

proof fn lemma_dedup(s: Seq<Seq<char>>, n: int)
    requires
        0 <= n <= s.len(),
    ensures
        dedup(s, n).no_duplicates(),
        forall|x: Seq<char>| dedup(s, n).contains(x) <==> s.take(n).contains(x),
    decreases n,
{
    if n > 0 {
        lemma_dedup(s, n - 1);
        let d = dedup(s, n - 1);
        assert forall|x: Seq<char>| s.take(n).contains(x) <==> (s.take(n - 1).contains(x) || x == s[n - 1]) by {
            if s.take(n).contains(x) {
                let j = choose|j: int| 0 <= j < s.take(n).len() && #[trigger] s.take(n)[j] == x;
                if j < n - 1 {
                    assert(s.take(n - 1)[j] == x);
                }
            }
            if s.take(n - 1).contains(x) {
                let j = choose|j: int| 0 <= j < s.take(n - 1).len() && #[trigger] s.take(n - 1)[j] == x;
                assert(s.take(n)[j] == x);
            }
            if x == s[n - 1] {
                assert(s.take(n)[n - 1] == x);
            }
        }
        if !d.contains(s[n - 1]) {
            let e = d.push(s[n - 1]);
            assert forall|a: int, b: int| 0 <= a < e.len() && 0 <= b < e.len() && a != b implies e[a] != e[b] by {
                if a < d.len() && b < d.len() {
                } else if a == d.len() {
                    assert(d[b] == e[b]);
                } else {
                    assert(d[a] == e[a]);
                }
            }
            assert forall|x: Seq<char>| e.contains(x) <==> (d.contains(x) || x == s[n - 1]) by {
                if e.contains(x) {
                    let j = choose|j: int| 0 <= j < e.len() && #[trigger] e[j] == x;
                    if j < d.len() {
                        assert(d[j] == x);
                    }
                }
                if d.contains(x) {
                    let j = choose|j: int| 0 <= j < d.len() && #[trigger] d[j] == x;
                    assert(e[j] == x);
                }
                if x == s[n - 1] {
                    assert(e[d.len() as int] == x);
                }
            }
        }
    }
}

proof fn lemma_note_plan_paths(paths: Seq<Seq<char>>, n: int, notes: Seq<LocalNote>, entries: Seq<RemoteEntry>, files: Seq<FileState>, root: Seq<char>)
    requires
        0 <= n <= paths.len(),
        paths.no_duplicates(),
    ensures
        note_plan_upto(paths, n, notes, entries, files, root).map_values(|a: SyncActionView| action_path(a)).no_duplicates(),
        forall|i: int| 0 <= i < note_plan_upto(paths, n, notes, entries, files, root).len() ==> paths.take(n).contains(action_path(#[trigger] note_plan_upto(paths, n, notes, entries, files, root)[i])),
    decreases n,
{
    if n > 0 {
        lemma_note_plan_paths(paths, n - 1, notes, entries, files, root);
        let prev = note_plan_upto(paths, n - 1, notes, entries, files, root);
        let cur = note_plan_upto(paths, n, notes, entries, files, root);
        let path = paths[n - 1];
        let act = note_action(path, find_note(notes, path), find_remote(entries, root, false, path), find_previous(files, path));
        assert forall|i: int| 0 <= i < prev.len() implies paths.take(n).contains(action_path(#[trigger] prev[i])) by {
            let j = choose|j: int| 0 <= j < paths.take(n - 1).len() && #[trigger] paths.take(n - 1)[j] == action_path(prev[i]);
            assert(paths.take(n)[j] == action_path(prev[i]));
        }
        match act {
            Some(a) => {
                assert(action_path(a) == path);
                assert(cur == prev.push(a));
                assert(paths.take(n)[n - 1] == path);
                let pm = prev.map_values(|x: SyncActionView| action_path(x));
                let cm = cur.map_values(|x: SyncActionView| action_path(x));
                assert(cm =~= pm.push(path));
                assert forall|i: int| 0 <= i < prev.len() implies action_path(prev[i]) != path by {
                    let j = choose|j: int| 0 <= j < paths.take(n - 1).len() && #[trigger] paths.take(n - 1)[j] == action_path(prev[i]);
                    assert(paths[j] == action_path(prev[i]));
                }
                assert forall|a1: int, b1: int| 0 <= a1 < cm.len() && 0 <= b1 < cm.len() && a1 != b1 implies cm[a1] != cm[b1] by {
                    if a1 < prev.len() && b1 < prev.len() {
                        assert(cm[a1] == pm[a1] && cm[b1] == pm[b1]);
                    } else if a1 == prev.len() {
                        assert(cm[b1] == action_path(prev[b1]));
                    } else {
                        assert(cm[a1] == action_path(prev[a1]));
                    }
                }
                assert forall|i: int| 0 <= i < cur.len() implies paths.take(n).contains(action_path(#[trigger] cur[i])) by {
                    if i < prev.len() {
                        assert(cur[i] == prev[i]);
                    } else {
                        assert(paths.take(n)[n - 1] == action_path(cur[i]));
                    }
                }
            },
            None => {},
        }
    }
}

proof fn lemma_raw_plan_paths(paths: Seq<Seq<char>>, n: int, raws: Seq<LocalRawFile>, entries: Seq<RemoteEntry>, files: Seq<FileState>, root: Seq<char>)
    requires
        0 <= n <= paths.len(),
        paths.no_duplicates(),
    ensures
        raw_plan_upto(paths, n, raws, entries, files, root).map_values(|a: SyncActionView| action_path(a)).no_duplicates(),
        forall|i: int| 0 <= i < raw_plan_upto(paths, n, raws, entries, files, root).len() ==> paths.take(n).contains(action_path(#[trigger] raw_plan_upto(paths, n, raws, entries, files, root)[i])),
        forall|i: int| 0 <= i < raw_plan_upto(paths, n, raws, entries, files, root).len() ==> !(#[trigger] raw_plan_upto(paths, n, raws, entries, files, root)[i] is Conflict),
    decreases n,
{
    if n > 0 {
        lemma_raw_plan_paths(paths, n - 1, raws, entries, files, root);
        let prev = raw_plan_upto(paths, n - 1, raws, entries, files, root);
        let cur = raw_plan_upto(paths, n, raws, entries, files, root);
        let path = paths[n - 1];
        let act = raw_action(path, find_raw(raws, path), find_remote(entries, root, true, path), find_previous(files, path));
        assert forall|i: int| 0 <= i < prev.len() implies paths.take(n).contains(action_path(#[trigger] prev[i])) by {
            let j = choose|j: int| 0 <= j < paths.take(n - 1).len() && #[trigger] paths.take(n - 1)[j] == action_path(prev[i]);
            assert(paths.take(n)[j] == action_path(prev[i]));
        }
        match act {
            Some(a) => {
                assert(action_path(a) == path);
                assert(cur == prev.push(a));
                assert(paths.take(n)[n - 1] == path);
                let pm = prev.map_values(|x: SyncActionView| action_path(x));
                let cm = cur.map_values(|x: SyncActionView| action_path(x));
                assert(cm =~= pm.push(path));
                assert forall|i: int| 0 <= i < prev.len() implies action_path(prev[i]) != path by {
                    let j = choose|j: int| 0 <= j < paths.take(n - 1).len() && #[trigger] paths.take(n - 1)[j] == action_path(prev[i]);
                    assert(paths[j] == action_path(prev[i]));
                }
                assert forall|a1: int, b1: int| 0 <= a1 < cm.len() && 0 <= b1 < cm.len() && a1 != b1 implies cm[a1] != cm[b1] by {
                    if a1 < prev.len() && b1 < prev.len() {
                        assert(cm[a1] == pm[a1] && cm[b1] == pm[b1]);
                    } else if a1 == prev.len() {
                        assert(cm[b1] == action_path(prev[b1]));
                    } else {
                        assert(cm[a1] == action_path(prev[a1]));
                    }
                }
                assert forall|i: int| 0 <= i < cur.len() implies paths.take(n).contains(action_path(#[trigger] cur[i])) && !(cur[i] is Conflict) by {
                    if i < prev.len() {
                        assert(cur[i] == prev[i]);
                    } else {
                        assert(paths.take(n)[n - 1] == action_path(cur[i]));
                    }
                }
            },
            None => {},
        }
    }
}

/// Law: a note plan names every path at most once, and only paths that are local note
/// keys, remote files or recorded files.
pub proof fn law_note_plan_paths_distinct(notes: Seq<LocalNote>, entries: Seq<RemoteEntry>, files: Seq<FileState>, root: Seq<char>)
    ensures
        note_plan(notes, entries, files, root).map_values(|a: SyncActionView| action_path(a)).no_duplicates(),
        forall|i: int| 0 <= i < note_plan(notes, entries, files, root).len() ==> ({
            let p = action_path(#[trigger] note_plan(notes, entries, files, root)[i]);
            note_keys(notes).contains(p) || remote_keys(entries, root).contains(p) || file_paths(files).contains(p)
        }),
{
    let rk = remote_keys(entries, root);
    let ri = remote_included(entries, root, false);
    let pk = file_paths(files);
    let pi = previous_included(files, false);
    let cand = note_keys(notes) + select(rk, ri, rk.len() as int) + select(pk, pi, pk.len() as int);
    let paths = dedup(cand, cand.len() as int);
    lemma_dedup(cand, cand.len() as int);
    lemma_note_plan_paths(paths, paths.len() as int, notes, entries, files, root);
    assert(paths.take(paths.len() as int) =~= paths);
    assert(cand.take(cand.len() as int) =~= cand);
    lemma_select_subset(rk, ri, rk.len() as int);
    lemma_select_subset(pk, pi, pk.len() as int);
    assert forall|i: int| 0 <= i < note_plan(notes, entries, files, root).len() implies ({
        let p = action_path(#[trigger] note_plan(notes, entries, files, root)[i]);
        note_keys(notes).contains(p) || remote_keys(entries, root).contains(p) || file_paths(files).contains(p)
    }) by {
        let p = action_path(note_plan(notes, entries, files, root)[i]);
        assert(paths.contains(p));
        assert(cand.contains(p));
        let j = choose|j: int| 0 <= j < cand.len() && #[trigger] cand[j] == p;
        let a = note_keys(notes);
        let b = select(rk, ri, rk.len() as int);
        if j < a.len() {
            assert(a[j] == p);
        } else if j < a.len() + b.len() {
            assert(b[j - a.len()] == p);
            assert(b.contains(p));
        } else {
            let c = select(pk, pi, pk.len() as int);
            assert(c[j - a.len() - b.len()] == p);
            assert(c.contains(p));
        }
    }
}

proof fn lemma_select_subset(keys: Seq<Seq<char>>, inc: Seq<bool>, n: int)
    requires
        0 <= n <= keys.len(),
    ensures
        forall|x: Seq<char>| select(keys, inc, n).contains(x) ==> keys.contains(x),
    decreases n,
{
    if n > 0 {
        lemma_select_subset(keys, inc, n - 1);
        assert forall|x: Seq<char>| select(keys, inc, n).contains(x) implies keys.contains(x) by {
            let s = select(keys, inc, n);
            let j = choose|j: int| 0 <= j < s.len() && #[trigger] s[j] == x;
            if inc[n - 1] && j == s.len() - 1 {
                assert(keys[n - 1] == x);
            } else {
                assert(select(keys, inc, n - 1)[j] == x);
            }
        }
    }
}

/// Law: raw files are immutable, so a raw plan never holds a conflict, and it names
/// every path at most once.
pub proof fn law_raw_plan_has_no_conflicts(raws: Seq<LocalRawFile>, entries: Seq<RemoteEntry>, files: Seq<FileState>, root: Seq<char>)
    ensures
        forall|i: int| 0 <= i < raw_plan(raws, entries, files, root).len() ==> !(#[trigger] raw_plan(raws, entries, files, root)[i] is Conflict),
        raw_plan(raws, entries, files, root).map_values(|a: SyncActionView| action_path(a)).no_duplicates(),
{
    let rk = remote_keys(entries, root);
    let ri = remote_included(entries, root, true);
    let pk = file_paths(files);
    let pi = previous_included(files, true);
    let cand = raw_keys(raws) + select(rk, ri, rk.len() as int) + select(pk, pi, pk.len() as int);
    let paths = dedup(cand, cand.len() as int);
    lemma_dedup(cand, cand.len() as int);
    lemma_raw_plan_paths(paths, paths.len() as int, raws, entries, files, root);
}

/// Law: a note that is unchanged on both sides since the last synchronisation needs no
/// action, and one changed on one side only is copied to the other.
pub proof fn law_three_way_decisions(path: Seq<char>, l: LocalNote, r: RemoteEntry, p: RemoteFileMetadata)
    ensures
        !local_changed(l.note.updated_at, l.markdown_size, p) && !remote_changed(r@, p) ==> note_action(path, Some(l), Some(r), Some(p)) is None,
        local_changed(l.note.updated_at, l.markdown_size, p) && !remote_changed(r@, p) ==> note_action(path, Some(l), Some(r), Some(p)) == Some(SyncActionView::Upload(path)),
        !local_changed(l.note.updated_at, l.markdown_size, p) && remote_changed(r@, p) ==> note_action(path, Some(l), Some(r), Some(p)) == Some(SyncActionView::Download(path, r@)),
{
}


proof fn lemma_select_agree(k1: Seq<Seq<char>>, i1: Seq<bool>, k2: Seq<Seq<char>>, i2: Seq<bool>, m: int)
    requires
        forall|j: int| 0 <= j < m ==> i1[j] == i2[j] && (i1[j] ==> k1[j] == k2[j]),
    ensures
        select(k1, i1, m) == select(k2, i2, m),
    decreases m,
{
    if m > 0 {
        lemma_select_agree(k1, i1, k2, i2, m - 1);
    }
}

proof fn lemma_select_unflagged_tail(k: Seq<Seq<char>>, i: Seq<bool>, n: int, m: int)
    requires
        0 <= n <= m,
        forall|j: int| n <= j < m ==> !i[j],
    ensures
        select(k, i, m) == select(k, i, n),
    decreases m,
{
    if m > n {
        lemma_select_unflagged_tail(k, i, n, m - 1);
    }
}

proof fn lemma_last_index_agree(k1: Seq<Seq<char>>, i1: Seq<bool>, k2: Seq<Seq<char>>, i2: Seq<bool>, path: Seq<char>, m: int)
    requires
        forall|j: int| 0 <= j < m ==> i1[j] == i2[j] && (i1[j] ==> k1[j] == k2[j]),
    ensures
        last_index(k1, i1, path, m) == last_index(k2, i2, path, m),
    decreases m,
{
    if m > 0 {
        lemma_last_index_agree(k1, i1, k2, i2, path, m - 1);
    }
}

proof fn lemma_last_index_unflagged_tail(k: Seq<Seq<char>>, i: Seq<bool>, path: Seq<char>, n: int, m: int)
    requires
        0 <= n <= m,
        forall|j: int| n <= j < m ==> !i[j],
    ensures
        last_index(k, i, path, m) == last_index(k, i, path, n),
        last_index(k, i, path, n) matches Some(j) ==> 0 <= j < n,
    decreases m,
{
    lemma_last_index_range(k, i, path, n);
    if m > n {
        lemma_last_index_unflagged_tail(k, i, path, n, m - 1);
    }
}

proof fn lemma_last_index_range(k: Seq<Seq<char>>, i: Seq<bool>, path: Seq<char>, n: int)
    ensures
        last_index(k, i, path, n) matches Some(j) ==> 0 <= j < n,
    decreases n,
{
    if n > 0 {
        lemma_last_index_range(k, i, path, n - 1);
    }
}

proof fn lemma_trailing_collections(entries: Seq<RemoteEntry>, colls: Seq<RemoteEntry>, root: Seq<char>, raw: bool)
    requires
        forall|j: int| 0 <= j < colls.len() ==> (#[trigger] colls[j]).is_collection,
    ensures
        forall|path: Seq<char>| #[trigger] find_remote(entries + colls, root, raw, path) == find_remote(entries, root, raw, path),
        select(remote_keys(entries + colls, root), remote_included(entries + colls, root, raw), (entries + colls).len() as int)
            == select(remote_keys(entries, root), remote_included(entries, root, raw), entries.len() as int),
{
    let e2 = entries + colls;
    let n = entries.len() as int;
    let k1 = remote_keys(entries, root);
    let i1 = remote_included(entries, root, raw);
    let k2 = remote_keys(e2, root);
    let i2 = remote_included(e2, root, raw);
    assert forall|j: int| 0 <= j < n implies i2[j] == i1[j] && (i2[j] ==> k2[j] == k1[j]) by {
        assert(e2[j] == entries[j]);
    }
    assert forall|j: int| n <= j < e2.len() implies !i2[j] by {
        assert(e2[j] == colls[j - n]);
    }
    lemma_select_agree(k2, i2, k1, i1, n);
    lemma_select_unflagged_tail(k2, i2, n, e2.len() as int);
    assert forall|path: Seq<char>| #[trigger] find_remote(e2, root, raw, path) == find_remote(entries, root, raw, path) by {
        lemma_last_index_agree(k2, i2, k1, i1, path, n);
        lemma_last_index_unflagged_tail(k2, i2, path, n, e2.len() as int);
        match last_index(k1, i1, path, n) {
            Some(j) => {
                assert(e2[j] == entries[j]);
            },
            None => {},
        }
    }
}

proof fn lemma_note_plan_upto_same_remote(paths: Seq<Seq<char>>, n: int, notes: Seq<LocalNote>, e1: Seq<RemoteEntry>, e2: Seq<RemoteEntry>, files: Seq<FileState>, root: Seq<char>)
    requires
        forall|path: Seq<char>| #[trigger] find_remote(e1, root, false, path) == find_remote(e2, root, false, path),
    ensures
        note_plan_upto(paths, n, notes, e1, files, root) == note_plan_upto(paths, n, notes, e2, files, root),
    decreases n,
{
    if n > 0 {
        lemma_note_plan_upto_same_remote(paths, n - 1, notes, e1, e2, files, root);
        assert(find_remote(e1, root, false, paths[n - 1]) == find_remote(e2, root, false, paths[n - 1]));
    }
}

proof fn lemma_raw_plan_upto_same_remote(paths: Seq<Seq<char>>, n: int, raws: Seq<LocalRawFile>, e1: Seq<RemoteEntry>, e2: Seq<RemoteEntry>, files: Seq<FileState>, root: Seq<char>)
    requires
        forall|path: Seq<char>| #[trigger] find_remote(e1, root, true, path) == find_remote(e2, root, true, path),
    ensures
        raw_plan_upto(paths, n, raws, e1, files, root) == raw_plan_upto(paths, n, raws, e2, files, root),
    decreases n,
{
    if n > 0 {
        lemma_raw_plan_upto_same_remote(paths, n - 1, raws, e1, e2, files, root);
        assert(find_remote(e1, root, true, paths[n - 1]) == find_remote(e2, root, true, paths[n - 1]));
    }
}

/// Law: collection entries (directories) in a listing change no plan: the note plan and
/// the raw plan for a listing followed by any number of collections are those for the
/// listing alone.
pub proof fn law_collections_do_not_change_plans(
    notes: Seq<LocalNote>,
    raws: Seq<LocalRawFile>,
    entries: Seq<RemoteEntry>,
    colls: Seq<RemoteEntry>,
    files: Seq<FileState>,
    root: Seq<char>,
)
    requires
        forall|j: int| 0 <= j < colls.len() ==> (#[trigger] colls[j]).is_collection,
    ensures
        note_plan(notes, entries + colls, files, root) == note_plan(notes, entries, files, root),
        raw_plan(raws, entries + colls, files, root) == raw_plan(raws, entries, files, root),
{
    let e2 = entries + colls;
    lemma_trailing_collections(entries, colls, root, false);
    lemma_trailing_collections(entries, colls, root, true);
    assert(remote_keys(e2, root).len() == e2.len());
    assert(remote_keys(entries, root).len() == entries.len());
    let np = plan_paths(note_keys(notes), entries, files, root, false);
    assert(plan_paths(note_keys(notes), e2, files, root, false) == np);
    lemma_note_plan_upto_same_remote(np, np.len() as int, notes, e2, entries, files, root);
    let rp = plan_paths(raw_keys(raws), entries, files, root, true);
    assert(plan_paths(raw_keys(raws), e2, files, root, true) == rp);
    lemma_raw_plan_upto_same_remote(rp, rp.len() as int, raws, e2, entries, files, root);
}


/// The element of `s` that a plan finds for `path`: the last flagged one with that key.
pub open spec fn found<T>(s: Seq<T>, key: spec_fn(T) -> Seq<char>, flag: spec_fn(T) -> bool, path: Seq<char>) -> Option<T> {
    match last_index(Seq::new(s.len(), |i: int| key(s[i])), Seq::new(s.len(), |i: int| flag(s[i])), path, s.len() as int) {
        Some(j) => Some(s[j]),
        None => None,
    }
}

/// No two flagged elements of `s` have the same key.
pub open spec fn unique_keys<T>(s: Seq<T>, key: spec_fn(T) -> Seq<char>, flag: spec_fn(T) -> bool) -> bool {
    forall|a: int, b: int|
        0 <= a < s.len() && 0 <= b < s.len() && flag(s[a]) && flag(s[b]) && #[trigger] key(s[a]) == #[trigger] key(s[b]) ==> a == b
}

/// The file key of a local note.
pub open spec fn note_key_fn() -> spec_fn(LocalNote) -> Seq<char> {
    |n: LocalNote| note_key(n)
}

/// Every local note takes part.
pub open spec fn every_note() -> spec_fn(LocalNote) -> bool {
    |n: LocalNote| true
}

/// The vault-relative path of a remote entry below `root`.
pub open spec fn remote_key_fn(root: Seq<char>) -> spec_fn(RemoteEntry) -> Seq<char> {
    |e: RemoteEntry| relative_path_spec(e.href@, root)
}

/// A remote entry takes part in a note plan: a file whose path is in scope.
pub open spec fn remote_flag_fn(root: Seq<char>) -> spec_fn(RemoteEntry) -> bool {
    |e: RemoteEntry| !e.is_collection && path_in_scope(relative_path_spec(e.href@, root), false)
}

proof fn lemma_last_index_match(k: Seq<Seq<char>>, inc: Seq<bool>, p: Seq<char>, n: int, j: int)
    requires
        0 <= j < n,
        inc[j],
        k[j] == p,
        forall|a: int| j < a < n ==> !(inc[a] && k[a] == p),
    ensures
        last_index(k, inc, p, n) == Some(j),
    decreases n,
{
    if n - 1 > j {
        lemma_last_index_match(k, inc, p, n - 1, j);
    }
}

proof fn lemma_last_index_none(k: Seq<Seq<char>>, inc: Seq<bool>, p: Seq<char>, n: int)
    requires
        forall|a: int| 0 <= a < n ==> !(inc[a] && k[a] == p),
    ensures
        last_index(k, inc, p, n) is None,
    decreases n,
{
    if n > 0 {
        lemma_last_index_none(k, inc, p, n - 1);
    }
}

proof fn lemma_found_unique<T>(s: Seq<T>, key: spec_fn(T) -> Seq<char>, flag: spec_fn(T) -> bool, p: Seq<char>)
    requires
        unique_keys(s, key, flag),
    ensures
        (exists|j: int| 0 <= j < s.len() && flag(s[j]) && key(s[j]) == p) ==> (found(s, key, flag, p) matches Some(x) && s.contains(x) && flag(x) && key(x) == p),
        !(exists|j: int| 0 <= j < s.len() && flag(s[j]) && key(s[j]) == p) ==> found(s, key, flag, p) is None,
{
    let k = Seq::new(s.len(), |i: int| key(s[i]));
    let inc = Seq::new(s.len(), |i: int| flag(s[i]));
    if exists|j: int| 0 <= j < s.len() && flag(s[j]) && key(s[j]) == p {
        let j = choose|j: int| 0 <= j < s.len() && flag(s[j]) && key(s[j]) == p;
        assert forall|a: int| j < a < s.len() implies !(inc[a] && k[a] == p) by {
            if inc[a] && k[a] == p {
                assert(key(s[a]) == key(s[j]));
            }
        }
        lemma_last_index_match(k, inc, p, s.len() as int, j);
        assert(s.contains(s[j]));
    } else {
        assert forall|a: int| 0 <= a < s.len() implies !(inc[a] && k[a] == p) by {}
        lemma_last_index_none(k, inc, p, s.len() as int);
    }
}

/// Reordering a sequence whose flagged keys are unique does not change what is found.
proof fn lemma_found_permutation<T>(s1: Seq<T>, s2: Seq<T>, key: spec_fn(T) -> Seq<char>, flag: spec_fn(T) -> bool, p: Seq<char>)
    requires
        s1.to_multiset() == s2.to_multiset(),
        unique_keys(s1, key, flag),
        unique_keys(s2, key, flag),
    ensures
        found(s1, key, flag, p) == found(s2, key, flag, p),
{
    broadcast use vstd::seq_lib::group_to_multiset_ensures;
    lemma_found_unique(s1, key, flag, p);
    lemma_found_unique(s2, key, flag, p);
    let e1 = exists|j: int| 0 <= j < s1.len() && flag(s1[j]) && key(s1[j]) == p;
    let e2 = exists|j: int| 0 <= j < s2.len() && flag(s2[j]) && key(s2[j]) == p;
    if e1 {
        let x = found(s1, key, flag, p)->0;
        assert(s1.to_multiset().count(x) > 0);
        assert(s2.contains(x));
        let j2 = choose|j: int| 0 <= j < s2.len() && s2[j] == x;
        assert(flag(s2[j2]) && key(s2[j2]) == p);
        let y = found(s2, key, flag, p)->0;
        assert(s2.to_multiset().count(y) > 0);
        assert(s1.contains(y));
        let j1 = choose|j: int| 0 <= j < s1.len() && s1[j] == y;
        let i1 = choose|j: int| 0 <= j < s1.len() && s1[j] == x;
        assert(key(s1[j1]) == key(s1[i1]));
        assert(j1 == i1);
    } else if e2 {
        let y = found(s2, key, flag, p)->0;
        assert(s2.to_multiset().count(y) > 0);
        assert(s1.contains(y));
        let j1 = choose|j: int| 0 <= j < s1.len() && s1[j] == y;
        assert(flag(s1[j1]) && key(s1[j1]) == p);
    }
}

proof fn lemma_find_note_is_found(notes: Seq<LocalNote>, p: Seq<char>)
    ensures
        find_note(notes, p) == found(notes, note_key_fn(), every_note(), p),
{
    assert(note_keys(notes) =~= Seq::new(notes.len(), |i: int| note_key_fn()(notes[i])));
    assert(all_true(notes.len()) =~= Seq::new(notes.len(), |i: int| every_note()(notes[i])));
}

proof fn lemma_find_remote_is_found(entries: Seq<RemoteEntry>, root: Seq<char>, p: Seq<char>)
    ensures
        find_remote(entries, root, false, p) == found(entries, remote_key_fn(root), remote_flag_fn(root), p),
{
    assert(remote_keys(entries, root) =~= Seq::new(entries.len(), |i: int| remote_key_fn(root)(entries[i])));
    assert(remote_included(entries, root, false) =~= Seq::new(entries.len(), |i: int| remote_flag_fn(root)(entries[i])));
}

/// The action a plan takes for `path`: the last one naming it (plans name each path at
/// most once, see [`law_note_plan_paths_distinct`]).
pub open spec fn plan_action(plan: Seq<SyncActionView>, path: Seq<char>) -> Option<SyncActionView>
    decreases plan.len(),
{
    if plan.len() == 0 {
        None
    } else if action_path(plan.last()) == path {
        Some(plan.last())
    } else {
        plan_action(plan.drop_last(), path)
    }
}

proof fn lemma_note_action_path(path: Seq<char>, l: Option<LocalNote>, r: Option<RemoteEntry>, p: Option<RemoteFileMetadata>)
    ensures
        note_action(path, l, r, p) matches Some(a) ==> action_path(a) == path,
{
}

proof fn lemma_note_plan_upto_actions(paths: Seq<Seq<char>>, n: int, notes: Seq<LocalNote>, entries: Seq<RemoteEntry>, files: Seq<FileState>, root: Seq<char>, p: Seq<char>)
    requires
        0 <= n <= paths.len(),
    ensures
        plan_action(note_plan_upto(paths, n, notes, entries, files, root), p) == (if paths.take(n).contains(p) {
            note_action(p, find_note(notes, p), find_remote(entries, root, false, p), find_previous(files, p))
        } else {
            None
        }),
    decreases n,
{
    if n > 0 {
        lemma_note_plan_upto_actions(paths, n - 1, notes, entries, files, root, p);
        let q = paths[n - 1];
        let rest = note_plan_upto(paths, n - 1, notes, entries, files, root);
        lemma_note_action_path(q, find_note(notes, q), find_remote(entries, root, false, q), find_previous(files, q));
        match note_action(q, find_note(notes, q), find_remote(entries, root, false, q), find_previous(files, q)) {
            Some(a) => {
                assert(rest.push(a).drop_last() =~= rest);
            },
            None => {},
        }
        assert(paths.take(n) =~= paths.take(n - 1).push(q));
        let tn = paths.take(n);
        let tm = paths.take(n - 1);
        assert(tn.contains(p) <==> (tm.contains(p) || q == p)) by {
            if tn.contains(p) {
                let j = choose|j: int| 0 <= j < tn.len() && tn[j] == p;
                if j < n - 1 {
                    assert(tm[j] == p);
                }
            }
            if tm.contains(p) {
                let j = choose|j: int| 0 <= j < tm.len() && tm[j] == p;
                assert(tn[j] == p);
            }
            if q == p {
                assert(tn[n - 1] == p);
            }
        }
    } else {
        assert(paths.take(0) =~= Seq::<Seq<char>>::empty());
    }
}

proof fn lemma_select_contains(keys: Seq<Seq<char>>, inc: Seq<bool>, n: int, x: Seq<char>)
    requires
        0 <= n,
    ensures
        select(keys, inc, n).contains(x) <==> exists|j: int| 0 <= j < n && inc[j] && keys[j] == x,
    decreases n,
{
    if n > 0 {
        lemma_select_contains(keys, inc, n - 1, x);
        let s = select(keys, inc, n - 1);
        if inc[n - 1] {
            let t = s.push(keys[n - 1]);
            if t.contains(x) {
                let j = choose|j: int| 0 <= j < t.len() && t[j] == x;
                if j < s.len() {
                    assert(s[j] == x);
                }
            }
            if s.contains(x) {
                let j = choose|j: int| 0 <= j < s.len() && s[j] == x;
                assert(t[j] == x);
            }
            if keys[n - 1] == x {
                assert(t[s.len() as int] == x);
            }
        }
    }
}

proof fn lemma_permuted_select(s1: Seq<RemoteEntry>, s2: Seq<RemoteEntry>, root: Seq<char>, x: Seq<char>)
    requires
        s1.to_multiset() == s2.to_multiset(),
    ensures
        select(remote_keys(s1, root), remote_included(s1, root, false), s1.len() as int).contains(x)
            ==> select(remote_keys(s2, root), remote_included(s2, root, false), s2.len() as int).contains(x),
{
    broadcast use vstd::seq_lib::group_to_multiset_ensures;
    lemma_select_contains(remote_keys(s1, root), remote_included(s1, root, false), s1.len() as int, x);
    lemma_select_contains(remote_keys(s2, root), remote_included(s2, root, false), s2.len() as int, x);
    if select(remote_keys(s1, root), remote_included(s1, root, false), s1.len() as int).contains(x) {
        let j = choose|j: int| 0 <= j < s1.len() && remote_included(s1, root, false)[j] && remote_keys(s1, root)[j] == x;
        let e = s1[j];
        assert(s1.contains(e));
        assert(s1.to_multiset().count(e) > 0);
        assert(s2.contains(e));
        let j2 = choose|i: int| 0 <= i < s2.len() && s2[i] == e;
        assert(remote_included(s2, root, false)[j2] && remote_keys(s2, root)[j2] == x);
    }
}

proof fn lemma_permuted_keys(n1: Seq<LocalNote>, n2: Seq<LocalNote>, x: Seq<char>)
    requires
        n1.to_multiset() == n2.to_multiset(),
    ensures
        note_keys(n1).contains(x) ==> note_keys(n2).contains(x),
{
    broadcast use vstd::seq_lib::group_to_multiset_ensures;
    if note_keys(n1).contains(x) {
        let j = choose|j: int| 0 <= j < note_keys(n1).len() && note_keys(n1)[j] == x;
        let e = n1[j];
        assert(n1.contains(e));
        assert(n1.to_multiset().count(e) > 0);
        assert(n2.contains(e));
        let j2 = choose|i: int| 0 <= i < n2.len() && n2[i] == e;
        assert(note_keys(n2)[j2] == x);
    }
}

proof fn lemma_plan_paths_permuted(n1: Seq<LocalNote>, n2: Seq<LocalNote>, e1: Seq<RemoteEntry>, e2: Seq<RemoteEntry>, files: Seq<FileState>, root: Seq<char>, x: Seq<char>)
    requires
        n1.to_multiset() == n2.to_multiset(),
        e1.to_multiset() == e2.to_multiset(),
    ensures
        plan_paths(note_keys(n1), e1, files, root, false).contains(x) ==> plan_paths(note_keys(n2), e2, files, root, false).contains(x),
{
    let pk = file_paths(files);
    let pi = previous_included(files, false);
    let sp = select(pk, pi, pk.len() as int);
    let c1 = note_keys(n1) + select(remote_keys(e1, root), remote_included(e1, root, false), remote_keys(e1, root).len() as int) + sp;
    let c2 = note_keys(n2) + select(remote_keys(e2, root), remote_included(e2, root, false), remote_keys(e2, root).len() as int) + sp;
    lemma_dedup(c1, c1.len() as int);
    lemma_dedup(c2, c2.len() as int);
    assert(c1.take(c1.len() as int) =~= c1);
    assert(c2.take(c2.len() as int) =~= c2);
    if plan_paths(note_keys(n1), e1, files, root, false).contains(x) {
        assert(c1.contains(x));
        let j = choose|j: int| 0 <= j < c1.len() && c1[j] == x;
        let a = note_keys(n1);
        let b = select(remote_keys(e1, root), remote_included(e1, root, false), remote_keys(e1, root).len() as int);
        let a2 = note_keys(n2);
        let b2 = select(remote_keys(e2, root), remote_included(e2, root, false), remote_keys(e2, root).len() as int);
        if j < a.len() {
            assert(a[j] == x);
            lemma_permuted_keys(n1, n2, x);
            let i = choose|i: int| 0 <= i < a2.len() && a2[i] == x;
            assert(c2[i] == x);
        } else if j < a.len() + b.len() {
            assert(b[j - a.len()] == x);
            lemma_permuted_select(e1, e2, root, x);
            let i = choose|i: int| 0 <= i < b2.len() && b2[i] == x;
            assert(c2[a2.len() + i] == x);
        } else {
            assert(sp[j - a.len() - b.len()] == x);
            assert(c2[a2.len() + b2.len() + (j - a.len() - b.len())] == x);
        }
        assert(c2.contains(x));
    }
}

/// Law: a note plan does not depend on the order of its inputs. When the local notes and
/// the remote entries are given in another order (the same notes and entries, each note
/// key and each remote file path occurring once), the plan takes the same action for
/// every path; as each plan names a path at most once, the two plans hold the same
/// actions.
pub proof fn law_note_plan_ignores_order(
    notes1: Seq<LocalNote>,
    notes2: Seq<LocalNote>,
    entries1: Seq<RemoteEntry>,
    entries2: Seq<RemoteEntry>,
    files: Seq<FileState>,
    root: Seq<char>,
    path: Seq<char>,
)
    requires
        notes1.to_multiset() == notes2.to_multiset(),
        entries1.to_multiset() == entries2.to_multiset(),
        unique_keys(notes1, note_key_fn(), every_note()),
        unique_keys(notes2, note_key_fn(), every_note()),
        unique_keys(entries1, remote_key_fn(root), remote_flag_fn(root)),
        unique_keys(entries2, remote_key_fn(root), remote_flag_fn(root)),
    ensures
        plan_action(note_plan(notes1, entries1, files, root), path) == plan_action(note_plan(notes2, entries2, files, root), path),
{
    let p1 = plan_paths(note_keys(notes1), entries1, files, root, false);
    let p2 = plan_paths(note_keys(notes2), entries2, files, root, false);
    lemma_note_plan_upto_actions(p1, p1.len() as int, notes1, entries1, files, root, path);
    lemma_note_plan_upto_actions(p2, p2.len() as int, notes2, entries2, files, root, path);
    assert(p1.take(p1.len() as int) =~= p1);
    assert(p2.take(p2.len() as int) =~= p2);
    lemma_plan_paths_permuted(notes1, notes2, entries1, entries2, files, root, path);
    lemma_plan_paths_permuted(notes2, notes1, entries2, entries1, files, root, path);
    lemma_find_note_is_found(notes1, path);
    lemma_find_note_is_found(notes2, path);
    lemma_found_permutation(notes1, notes2, note_key_fn(), every_note(), path);
    lemma_find_remote_is_found(entries1, root, path);
    lemma_find_remote_is_found(entries2, root, path);
    lemma_found_permutation(entries1, entries2, remote_key_fn(root), remote_flag_fn(root), path);
}


/// The paths a plan names, in order.
pub open spec fn plan_paths_of(plan: Seq<SyncActionView>) -> Seq<Seq<char>> {
    plan.map_values(|a: SyncActionView| action_path(a))
}

proof fn lemma_plan_action_found(plan: Seq<SyncActionView>, p: Seq<char>)
    ensures
        plan_action(plan, p) matches Some(a) ==> plan.contains(a) && action_path(a) == p,
    decreases plan.len(),
{
    if plan.len() > 0 && action_path(plan.last()) != p {
        lemma_plan_action_found(plan.drop_last(), p);
        match plan_action(plan, p) {
            Some(a) => {
                let d = plan.drop_last();
                let j = choose|j: int| 0 <= j < d.len() && d[j] == a;
                assert(plan[j] == a);
            },
            None => {},
        }
    } else if plan.len() > 0 {
        assert(plan[plan.len() - 1] == plan.last());
    }
}

proof fn lemma_plan_action_of_member(plan: Seq<SyncActionView>, a: SyncActionView)
    requires
        plan_paths_of(plan).no_duplicates(),
        plan.contains(a),
    ensures
        plan_action(plan, action_path(a)) == Some(a),
    decreases plan.len(),
{
    let i = choose|i: int| 0 <= i < plan.len() && plan[i] == a;
    if plan.last() != a {
        let d = plan.drop_last();
        assert(i < plan.len() - 1);
        assert(plan_paths_of(plan)[i] != plan_paths_of(plan)[plan.len() - 1]);
        assert(d[i] == a);
        assert(plan_paths_of(d) =~= plan_paths_of(plan).drop_last());
        assert forall|x: int, y: int| 0 <= x < plan_paths_of(d).len() && 0 <= y < plan_paths_of(d).len() && x != y
            implies plan_paths_of(d)[x] != plan_paths_of(d)[y] by {
            assert(plan_paths_of(d)[x] == plan_paths_of(plan)[x]);
            assert(plan_paths_of(d)[y] == plan_paths_of(plan)[y]);
        }
        lemma_plan_action_of_member(d, a);
    }
}

proof fn lemma_plan_no_duplicates(plan: Seq<SyncActionView>)
    requires
        plan_paths_of(plan).no_duplicates(),
    ensures
        plan.no_duplicates(),
{
    assert forall|x: int, y: int| 0 <= x < plan.len() && 0 <= y < plan.len() && x != y implies plan[x] != plan[y] by {
        assert(plan_paths_of(plan)[x] != plan_paths_of(plan)[y]);
    }
}

/// Two plans that name each path at most once and take the same action for every path
/// hold the same actions.
proof fn lemma_same_actions_same_multiset(p1: Seq<SyncActionView>, p2: Seq<SyncActionView>)
    requires
        plan_paths_of(p1).no_duplicates(),
        plan_paths_of(p2).no_duplicates(),
        forall|path: Seq<char>| #[trigger] plan_action(p1, path) == plan_action(p2, path),
    ensures
        p1.to_multiset() == p2.to_multiset(),
{
    broadcast use vstd::seq_lib::group_to_multiset_ensures;
    lemma_plan_no_duplicates(p1);
    lemma_plan_no_duplicates(p2);
    p1.lemma_multiset_has_no_duplicates();
    p2.lemma_multiset_has_no_duplicates();
    assert forall|a: SyncActionView| p1.contains(a) <==> p2.contains(a) by {
        if p1.contains(a) {
            lemma_plan_action_of_member(p1, a);
            assert(plan_action(p1, action_path(a)) == plan_action(p2, action_path(a)));
            lemma_plan_action_found(p2, action_path(a));
        }
        if p2.contains(a) {
            lemma_plan_action_of_member(p2, a);
            assert(plan_action(p1, action_path(a)) == plan_action(p2, action_path(a)));
            lemma_plan_action_found(p1, action_path(a));
        }
    }
    assert forall|a: SyncActionView| p1.to_multiset().count(a) == p2.to_multiset().count(a) by {
        if p1.contains(a) {
            assert(p1.to_multiset().contains(a));
            assert(p2.to_multiset().contains(a));
        }
    }
    assert(p1.to_multiset() =~= p2.to_multiset());
}

/// Law: as a collection of actions, a note plan does not depend on the order of its
/// inputs. Local notes and remote entries given in another order (the same notes and
/// entries, each note key and each remote file path occurring once) give a plan with
/// the same actions, each as often.
pub proof fn law_note_plan_actions_ignore_order(
    notes1: Seq<LocalNote>,
    notes2: Seq<LocalNote>,
    entries1: Seq<RemoteEntry>,
    entries2: Seq<RemoteEntry>,
    files: Seq<FileState>,
    root: Seq<char>,
)
    requires
        notes1.to_multiset() == notes2.to_multiset(),
        entries1.to_multiset() == entries2.to_multiset(),
        unique_keys(notes1, note_key_fn(), every_note()),
        unique_keys(notes2, note_key_fn(), every_note()),
        unique_keys(entries1, remote_key_fn(root), remote_flag_fn(root)),
        unique_keys(entries2, remote_key_fn(root), remote_flag_fn(root)),
    ensures
        note_plan(notes1, entries1, files, root).to_multiset() == note_plan(notes2, entries2, files, root).to_multiset(),
{
    let p1 = note_plan(notes1, entries1, files, root);
    let p2 = note_plan(notes2, entries2, files, root);
    law_note_plan_paths_distinct(notes1, entries1, files, root);
    law_note_plan_paths_distinct(notes2, entries2, files, root);
    assert(plan_paths_of(p1) =~= p1.map_values(|a: SyncActionView| action_path(a)));
    assert(plan_paths_of(p2) =~= p2.map_values(|a: SyncActionView| action_path(a)));
    assert forall|path: Seq<char>| #[trigger] plan_action(p1, path) == plan_action(p2, path) by {
        law_note_plan_ignores_order(notes1, notes2, entries1, entries2, files, root, path);
    }
    lemma_same_actions_same_multiset(p1, p2);
}

/// Law: collections anywhere in a listing change no note plan's actions. A listing that
/// holds the entries of another and any number of collections, in any order (each note
/// key and each remote file path occurring once), gives a plan with the same actions,
/// each as often.
pub proof fn law_listing_order_and_collections(
    notes: Seq<LocalNote>,
    entries: Seq<RemoteEntry>,
    colls: Seq<RemoteEntry>,
    listing: Seq<RemoteEntry>,
    files: Seq<FileState>,
    root: Seq<char>,
)
    requires
        forall|j: int| 0 <= j < colls.len() ==> (#[trigger] colls[j]).is_collection,
        listing.to_multiset() == (entries + colls).to_multiset(),
        unique_keys(notes, note_key_fn(), every_note()),
        unique_keys(entries, remote_key_fn(root), remote_flag_fn(root)),
        unique_keys(listing, remote_key_fn(root), remote_flag_fn(root)),
    ensures
        note_plan(notes, listing, files, root).to_multiset() == note_plan(notes, entries, files, root).to_multiset(),
{
    let all = entries + colls;
    assert(unique_keys(all, remote_key_fn(root), remote_flag_fn(root))) by {
        assert forall|a: int, b: int|
            0 <= a < all.len() && 0 <= b < all.len() && remote_flag_fn(root)(all[a]) && remote_flag_fn(root)(all[b])
                && #[trigger] remote_key_fn(root)(all[a]) == #[trigger] remote_key_fn(root)(all[b]) implies a == b by {
            if a >= entries.len() {
                assert(all[a] == colls[a - entries.len()]);
            }
            if b >= entries.len() {
                assert(all[b] == colls[b - entries.len()]);
            }
            assert(all[a] == entries[a] && all[b] == entries[b]);
        }
    }
    law_note_plan_actions_ignore_order(notes, notes, listing, all, files, root);
    law_collections_do_not_change_plans(notes, Seq::empty(), entries, colls, files, root);
}


/// An action carries what belongs to its own path: a download or conflict the remote
/// file listed at that path (its relative path, see [`remote_keys`]), and a conflict the
/// local note stored at that path.
pub open spec fn carries_own(a: SyncActionView, notes: Seq<LocalNote>, entries: Seq<RemoteEntry>, root: Seq<char>) -> bool {
    match a {
        SyncActionView::Download(p, re) => exists|j: int|
            0 <= j < entries.len() && !entries[j].is_collection && #[trigger] remote_keys(entries, root)[j] == p
                && entries[j]@ == re,
        SyncActionView::Conflict(p, ln, re) => (exists|j: int|
            0 <= j < entries.len() && !entries[j].is_collection && #[trigger] remote_keys(entries, root)[j] == p
                && entries[j]@ == re) && (exists|k: int| 0 <= k < notes.len() && #[trigger] note_key(notes[k]) == p && notes[k].note@ == ln),
        _ => true,
    }
}

proof fn lemma_last_index_sound(k: Seq<Seq<char>>, inc: Seq<bool>, p: Seq<char>, n: int)
    ensures
        last_index(k, inc, p, n) matches Some(j) ==> 0 <= j < n && inc[j] && k[j] == p,
    decreases n,
{
    if n > 0 {
        lemma_last_index_sound(k, inc, p, n - 1);
    }
}

#[verifier::rlimit(30)]
proof fn lemma_note_action_carries(path: Seq<char>, notes: Seq<LocalNote>, entries: Seq<RemoteEntry>, files: Seq<FileState>, root: Seq<char>)
    ensures
        note_action(path, find_note(notes, path), find_remote(entries, root, false, path), find_previous(files, path)) matches Some(a)
            ==> carries_own(a, notes, entries, root),
{
    let rk = remote_keys(entries, root);
    let ri = remote_included(entries, root, false);
    lemma_last_index_sound(rk, ri, path, entries.len() as int);
    lemma_last_index_sound(note_keys(notes), all_true(notes.len()), path, notes.len() as int);
    match last_index(rk, ri, path, entries.len() as int) {
        Some(j) => {
            assert(!entries[j].is_collection && remote_keys(entries, root)[j] == path);
        },
        None => {},
    }
    match last_index(note_keys(notes), all_true(notes.len()), path, notes.len() as int) {
        Some(k) => {
            assert(note_key(notes[k]) == path);
        },
        None => {},
    }
}

proof fn lemma_note_plan_upto_carries(paths: Seq<Seq<char>>, n: int, notes: Seq<LocalNote>, entries: Seq<RemoteEntry>, files: Seq<FileState>, root: Seq<char>)
    requires
        0 <= n <= paths.len(),
    ensures
        forall|i: int| 0 <= i < note_plan_upto(paths, n, notes, entries, files, root).len()
            ==> carries_own(#[trigger] note_plan_upto(paths, n, notes, entries, files, root)[i], notes, entries, root),
    decreases n,
{
    if n > 0 {
        lemma_note_plan_upto_carries(paths, n - 1, notes, entries, files, root);
        lemma_note_action_carries(paths[n - 1], notes, entries, files, root);
        let prev = note_plan_upto(paths, n - 1, notes, entries, files, root);
        let cur = note_plan_upto(paths, n, notes, entries, files, root);
        assert forall|i: int| 0 <= i < cur.len() implies carries_own(#[trigger] cur[i], notes, entries, root) by {
            if i < prev.len() {
                assert(cur[i] == prev[i]);
            }
        }
    }
}

/// Law: every download and conflict of a note plan carries the remote entry listed at
/// its own path, and every conflict the local note stored at its own path.
pub proof fn law_plan_actions_carry_their_own_path(notes: Seq<LocalNote>, entries: Seq<RemoteEntry>, files: Seq<FileState>, root: Seq<char>)
    ensures
        forall|i: int| 0 <= i < note_plan(notes, entries, files, root).len()
            ==> carries_own(#[trigger] note_plan(notes, entries, files, root)[i], notes, entries, root),
{
    let paths = plan_paths(note_keys(notes), entries, files, root, false);
    lemma_note_plan_upto_carries(paths, paths.len() as int, notes, entries, files, root);
}


proof fn lemma_last_index_some(k: Seq<Seq<char>>, inc: Seq<bool>, p: Seq<char>, n: int, a: int)
    requires
        0 <= a < n,
        inc[a],
        k[a] == p,
    ensures
        last_index(k, inc, p, n) is Some,
    decreases n,
{
    if n - 1 > a && !(inc[n - 1] && k[n - 1] == p) {
        lemma_last_index_some(k, inc, p, n - 1, a);
    }
}

#[verifier::rlimit(60)]
proof fn lemma_raw_plan_upto_actions(paths: Seq<Seq<char>>, n: int, raws: Seq<LocalRawFile>, entries: Seq<RemoteEntry>, files: Seq<FileState>, root: Seq<char>, p: Seq<char>)
    requires
        0 <= n <= paths.len(),
    ensures
        plan_action(raw_plan_upto(paths, n, raws, entries, files, root), p) == (if paths.take(n).contains(p) {
            raw_action(p, find_raw(raws, p), find_remote(entries, root, true, p), find_previous(files, p))
        } else {
            None
        }),
    decreases n,
{
    if n > 0 {
        lemma_raw_plan_upto_actions(paths, n - 1, raws, entries, files, root, p);
        let q = paths[n - 1];
        let rest = raw_plan_upto(paths, n - 1, raws, entries, files, root);
        match raw_action(q, find_raw(raws, q), find_remote(entries, root, true, q), find_previous(files, q)) {
            Some(a) => {
                assert(rest.push(a).drop_last() =~= rest);
            },
            None => {},
        }
        let tn = paths.take(n);
        let tm = paths.take(n - 1);
        assert(tn.contains(p) <==> (tm.contains(p) || q == p)) by {
            if tn.contains(p) {
                let j = choose|j: int| 0 <= j < tn.len() && tn[j] == p;
                if j < n - 1 {
                    assert(tm[j] == p);
                }
            }
            if tm.contains(p) {
                let j = choose|j: int| 0 <= j < tm.len() && tm[j] == p;
                assert(tn[j] == p);
            }
            if q == p {
                assert(tn[n - 1] == p);
            }
        }
    } else {
        assert(paths.take(0) =~= Seq::<Seq<char>>::empty());
    }
}

/// Law: a first sync keeps local edits. For a note stored locally and listed remotely at
/// the same path, with no record of that path from an earlier sync, the note plan's
/// action for the path, unless the two copies are identical in time and size, is a
/// conflict carrying the local note and the remote entry (never a download that would
/// overwrite the local note, nor an upload that would overwrite the remote one).
#[verifier::rlimit(30)]
pub proof fn law_first_sync_keeps_local_edits(
    notes: Seq<LocalNote>,
    entries: Seq<RemoteEntry>,
    files: Seq<FileState>,
    root: Seq<char>,
    k: int,
    j: int,
)
    requires
        0 <= k < notes.len(),
        0 <= j < entries.len(),
        !entries[j].is_collection,
        relative_path_spec(entries[j].href@, root) == note_key(notes[k]),
        path_in_scope(note_key(notes[k]), false),
        forall|a: int| 0 <= a < notes.len() && a != k ==> note_key(notes[a]) != note_key(notes[k]),
        forall|b: int| 0 <= b < entries.len() && b != j && !entries[b].is_collection
            ==> relative_path_spec(entries[b].href@, root) != note_key(notes[k]),
        forall|i: int| 0 <= i < files.len() ==> files[i].path@ != note_key(notes[k]),
        !local_remote_identical(notes[k].note.updated_at, notes[k].markdown_size, entries[j]@),
    ensures
        plan_action(note_plan(notes, entries, files, root), note_key(notes[k]))
            == Some(SyncActionView::Conflict(note_key(notes[k]), notes[k].note@, entries[j]@)),
{
    let p = note_key(notes[k]);
    let nk = note_keys(notes);
    let rk = remote_keys(entries, root);
    let ri = remote_included(entries, root, false);
    let pk = file_paths(files);
    let pi = previous_included(files, false);
    let cand = nk + select(rk, ri, rk.len() as int) + select(pk, pi, pk.len() as int);
    let paths = dedup(cand, cand.len() as int);
    lemma_dedup(cand, cand.len() as int);
    assert(cand.take(cand.len() as int) =~= cand);
    assert(cand[k] == p);
    assert(paths.contains(p));
    lemma_note_plan_upto_actions(paths, paths.len() as int, notes, entries, files, root, p);
    assert(paths.take(paths.len() as int) =~= paths);
    lemma_last_index_match(nk, all_true(notes.len()), p, notes.len() as int, k);
    assert(ri[j] && rk[j] == p);
    assert forall|b: int| j < b < entries.len() implies !(ri[b] && rk[b] == p) by {}
    lemma_last_index_match(rk, ri, p, entries.len() as int, j);
    assert forall|i: int| 0 <= i < files.len() implies !(all_true(files.len())[i] && pk[i] == p) by {}
    lemma_last_index_none(pk, all_true(files.len()), p, files.len() as int);
}

/// Law: a raw file deleted locally is deleted remotely. For a raw path (an attachment or
/// a history snapshot) that no local raw file has, that the remote listing holds and
/// that an earlier sync recorded, the raw plan's action for the path is to delete the
/// remote file (never a download that would bring the deleted file back).
#[verifier::rlimit(30)]
pub proof fn law_raw_deleted_locally_is_deleted_remotely(
    raws: Seq<LocalRawFile>,
    entries: Seq<RemoteEntry>,
    files: Seq<FileState>,
    root: Seq<char>,
    j: int,
    i: int,
)
    requires
        0 <= j < entries.len(),
        0 <= i < files.len(),
        !entries[j].is_collection,
        relative_path_spec(entries[j].href@, root) == files[i].path@,
        path_in_scope(files[i].path@, true),
        forall|a: int| 0 <= a < raws.len() ==> raws[a].relative_path@ != files[i].path@,
    ensures
        plan_action(raw_plan(raws, entries, files, root), files[i].path@)
            == Some(SyncActionView::DeleteRemote(files[i].path@)),
{
    let p = files[i].path@;
    let nk = raw_keys(raws);
    let rk = remote_keys(entries, root);
    let ri = remote_included(entries, root, true);
    let pk = file_paths(files);
    let pi = previous_included(files, true);
    let sp = select(pk, pi, pk.len() as int);
    let cand = nk + select(rk, ri, rk.len() as int) + sp;
    let paths = dedup(cand, cand.len() as int);
    lemma_dedup(cand, cand.len() as int);
    assert(cand.take(cand.len() as int) =~= cand);
    lemma_select_contains(pk, pi, pk.len() as int, p);
    assert(pi[i] && pk[i] == p);
    assert(sp.contains(p));
    let m = choose|m: int| 0 <= m < sp.len() && sp[m] == p;
    assert(cand[nk.len() + select(rk, ri, rk.len() as int).len() + m] == p);
    assert(paths.contains(p));
    lemma_raw_plan_upto_actions(paths, paths.len() as int, raws, entries, files, root, p);
    assert(paths.take(paths.len() as int) =~= paths);
    assert forall|a: int| 0 <= a < raws.len() implies !(all_true(raws.len())[a] && nk[a] == p) by {}
    lemma_last_index_none(nk, all_true(raws.len()), p, raws.len() as int);
    assert(ri[j] && rk[j] == p);
    lemma_last_index_some(rk, ri, p, entries.len() as int, j);
    lemma_last_index_some(pk, all_true(files.len()), p, files.len() as int, i);
}


/// Some local note is stored at `p`.
pub open spec fn note_at(notes: Seq<LocalNote>, p: Seq<char>) -> bool {
    exists|k: int| 0 <= k < notes.len() && #[trigger] note_key(notes[k]) == p
}

/// Some local raw file is at `p`.
pub open spec fn raw_at(raws: Seq<LocalRawFile>, p: Seq<char>) -> bool {
    exists|k: int| 0 <= k < raws.len() && #[trigger] raws[k].relative_path@ == p
}

/// The remote listing holds a file (not a collection) at `p`.
pub open spec fn listed_at(entries: Seq<RemoteEntry>, root: Seq<char>, p: Seq<char>) -> bool {
    exists|j: int| 0 <= j < entries.len() && !entries[j].is_collection && #[trigger] remote_keys(entries, root)[j] == p
}

/// An earlier sync recorded `p`.
pub open spec fn recorded_at(files: Seq<FileState>, p: Seq<char>) -> bool {
    exists|i: int| 0 <= i < files.len() && #[trigger] files[i].path@ == p
}

proof fn lemma_find_facts(keys: Seq<Seq<char>>, inc: Seq<bool>, p: Seq<char>, n: int)
    requires
        n <= keys.len(),
        n <= inc.len(),
    ensures
        (exists|a: int| 0 <= a < n && inc[a] && keys[a] == p) ==> last_index(keys, inc, p, n) is Some,
        !(exists|a: int| 0 <= a < n && inc[a] && keys[a] == p) ==> last_index(keys, inc, p, n) is None,
{
    if exists|a: int| 0 <= a < n && inc[a] && keys[a] == p {
        let a = choose|a: int| 0 <= a < n && inc[a] && keys[a] == p;
        lemma_last_index_some(keys, inc, p, n, a);
    } else {
        lemma_last_index_none(keys, inc, p, n);
    }
}

proof fn lemma_candidate_in_plan(local: Seq<Seq<char>>, entries: Seq<RemoteEntry>, files: Seq<FileState>, root: Seq<char>, raw: bool, p: Seq<char>)
    requires
        local.contains(p)
            || (exists|j: int| 0 <= j < entries.len() && remote_included(entries, root, raw)[j] && remote_keys(entries, root)[j] == p)
            || (exists|i: int| 0 <= i < files.len() && previous_included(files, raw)[i] && file_paths(files)[i] == p),
    ensures
        plan_paths(local, entries, files, root, raw).contains(p),
{
    let rk = remote_keys(entries, root);
    let ri = remote_included(entries, root, raw);
    let pk = file_paths(files);
    let pi = previous_included(files, raw);
    let sr = select(rk, ri, rk.len() as int);
    let sp = select(pk, pi, pk.len() as int);
    let cand = local + sr + sp;
    lemma_dedup(cand, cand.len() as int);
    assert(cand.take(cand.len() as int) =~= cand);
    lemma_select_contains(rk, ri, rk.len() as int, p);
    lemma_select_contains(pk, pi, pk.len() as int, p);
    if local.contains(p) {
        let m = choose|m: int| 0 <= m < local.len() && local[m] == p;
        assert(cand[m] == p);
    } else if sr.contains(p) {
        let m = choose|m: int| 0 <= m < sr.len() && sr[m] == p;
        assert(cand[local.len() + m] == p);
    } else {
        assert(sp.contains(p));
        let m = choose|m: int| 0 <= m < sp.len() && sp[m] == p;
        assert(cand[local.len() + sr.len() + m] == p);
    }
}

/// Law: the one-sided decisions of a note plan. For a path `p` outside `.noda/`: a note
/// stored only locally is uploaded when no earlier sync recorded it, and deleted locally
/// when one did (it was deleted remotely); a file listed only remotely is deleted
/// remotely when an earlier sync recorded it (it was deleted locally), and downloaded
/// when none did; a path found nowhere has no action.
#[verifier::rlimit(40)]
pub proof fn law_note_plan_one_sided(notes: Seq<LocalNote>, entries: Seq<RemoteEntry>, files: Seq<FileState>, root: Seq<char>, p: Seq<char>)
    requires
        !has_prefix(p, noda_prefix()),
    ensures
        note_at(notes, p) && !listed_at(entries, root, p) && !recorded_at(files, p)
            ==> plan_action(note_plan(notes, entries, files, root), p) == Some(SyncActionView::Upload(p)),
        note_at(notes, p) && !listed_at(entries, root, p) && recorded_at(files, p)
            ==> plan_action(note_plan(notes, entries, files, root), p) == Some(SyncActionView::DeleteLocal(p)),
        !note_at(notes, p) && listed_at(entries, root, p) && recorded_at(files, p)
            ==> plan_action(note_plan(notes, entries, files, root), p) == Some(SyncActionView::DeleteRemote(p)),
        !note_at(notes, p) && listed_at(entries, root, p) && !recorded_at(files, p)
            ==> (plan_action(note_plan(notes, entries, files, root), p) matches Some(SyncActionView::Download(q, _)) && q == p),
        !note_at(notes, p) && !listed_at(entries, root, p) && !recorded_at(files, p)
            ==> plan_action(note_plan(notes, entries, files, root), p) is None,
{
    let nk = note_keys(notes);
    let rk = remote_keys(entries, root);
    let ri = remote_included(entries, root, false);
    let pk = file_paths(files);
    let pi = previous_included(files, false);
    let all_n = all_true(notes.len());
    let all_f = all_true(files.len());
    lemma_find_facts(nk, all_n, p, notes.len() as int);
    lemma_find_facts(rk, ri, p, entries.len() as int);
    lemma_find_facts(pk, all_f, p, files.len() as int);
    assert(note_at(notes, p) <==> exists|a: int| 0 <= a < notes.len() && all_n[a] && nk[a] == p) by {
        if note_at(notes, p) {
            let k = choose|k: int| 0 <= k < notes.len() && #[trigger] note_key(notes[k]) == p;
            assert(all_n[k] && nk[k] == p);
        }
    }
    assert(listed_at(entries, root, p) <==> exists|a: int| 0 <= a < entries.len() && ri[a] && rk[a] == p) by {
        if listed_at(entries, root, p) {
            let j = choose|j: int| 0 <= j < entries.len() && !entries[j].is_collection && #[trigger] remote_keys(entries, root)[j] == p;
            assert(ri[j] && rk[j] == p);
        }
    }
    assert(recorded_at(files, p) <==> exists|a: int| 0 <= a < files.len() && all_f[a] && pk[a] == p) by {
        if recorded_at(files, p) {
            let i = choose|i: int| 0 <= i < files.len() && #[trigger] files[i].path@ == p;
            assert(all_f[i] && pk[i] == p);
        }
    }
    let paths = plan_paths(nk, entries, files, root, false);
    lemma_note_plan_upto_actions(paths, paths.len() as int, notes, entries, files, root, p);
    assert(paths.take(paths.len() as int) =~= paths);
    if note_at(notes, p) || listed_at(entries, root, p) || recorded_at(files, p) {
        if note_at(notes, p) {
            let k = choose|k: int| 0 <= k < notes.len() && #[trigger] note_key(notes[k]) == p;
            assert(nk[k] == p);
            assert(nk.contains(p));
        } else if recorded_at(files, p) {
            let i = choose|i: int| 0 <= i < files.len() && #[trigger] files[i].path@ == p;
            assert(pi[i] && pk[i] == p);
        }
        lemma_candidate_in_plan(nk, entries, files, root, false, p);
    }
}

/// Law: the one-sided decisions of a raw plan. For a raw path `p` (an attachment or a
/// history snapshot): a file only present locally is uploaded when no earlier sync
/// recorded it and deleted locally when one did; a file only listed remotely is deleted
/// remotely when an earlier sync recorded it, and downloaded when none did; a path found
/// nowhere has no action.
#[verifier::rlimit(40)]
pub proof fn law_raw_plan_one_sided(raws: Seq<LocalRawFile>, entries: Seq<RemoteEntry>, files: Seq<FileState>, root: Seq<char>, p: Seq<char>)
    requires
        is_raw_path(p),
    ensures
        raw_at(raws, p) && !listed_at(entries, root, p) && !recorded_at(files, p)
            ==> plan_action(raw_plan(raws, entries, files, root), p) == Some(SyncActionView::Upload(p)),
        raw_at(raws, p) && !listed_at(entries, root, p) && recorded_at(files, p)
            ==> plan_action(raw_plan(raws, entries, files, root), p) == Some(SyncActionView::DeleteLocal(p)),
        !raw_at(raws, p) && listed_at(entries, root, p) && recorded_at(files, p)
            ==> plan_action(raw_plan(raws, entries, files, root), p) == Some(SyncActionView::DeleteRemote(p)),
        !raw_at(raws, p) && listed_at(entries, root, p) && !recorded_at(files, p)
            ==> (plan_action(raw_plan(raws, entries, files, root), p) matches Some(SyncActionView::Download(q, _)) && q == p),
        !raw_at(raws, p) && !listed_at(entries, root, p) && !recorded_at(files, p)
            ==> plan_action(raw_plan(raws, entries, files, root), p) is None,
{
    let nk = raw_keys(raws);
    let rk = remote_keys(entries, root);
    let ri = remote_included(entries, root, true);
    let pk = file_paths(files);
    let pi = previous_included(files, true);
    let all_n = all_true(raws.len());
    let all_f = all_true(files.len());
    lemma_find_facts(nk, all_n, p, raws.len() as int);
    lemma_find_facts(rk, ri, p, entries.len() as int);
    lemma_find_facts(pk, all_f, p, files.len() as int);
    assert(raw_at(raws, p) <==> exists|a: int| 0 <= a < raws.len() && all_n[a] && nk[a] == p) by {
        if raw_at(raws, p) {
            let k = choose|k: int| 0 <= k < raws.len() && #[trigger] raws[k].relative_path@ == p;
            assert(all_n[k] && nk[k] == p);
        }
    }
    assert(listed_at(entries, root, p) <==> exists|a: int| 0 <= a < entries.len() && ri[a] && rk[a] == p) by {
        if listed_at(entries, root, p) {
            let j = choose|j: int| 0 <= j < entries.len() && !entries[j].is_collection && #[trigger] remote_keys(entries, root)[j] == p;
            assert(ri[j] && rk[j] == p);
        }
    }
    assert(recorded_at(files, p) <==> exists|a: int| 0 <= a < files.len() && all_f[a] && pk[a] == p) by {
        if recorded_at(files, p) {
            let i = choose|i: int| 0 <= i < files.len() && #[trigger] files[i].path@ == p;
            assert(all_f[i] && pk[i] == p);
        }
    }
    let paths = plan_paths(nk, entries, files, root, true);
    lemma_raw_plan_upto_actions(paths, paths.len() as int, raws, entries, files, root, p);
    assert(paths.take(paths.len() as int) =~= paths);
    if raw_at(raws, p) || listed_at(entries, root, p) || recorded_at(files, p) {
        if raw_at(raws, p) {
            let k = choose|k: int| 0 <= k < raws.len() && #[trigger] raws[k].relative_path@ == p;
            assert(nk[k] == p);
            assert(nk.contains(p));
        } else if recorded_at(files, p) {
            let i = choose|i: int| 0 <= i < files.len() && #[trigger] files[i].path@ == p;
            assert(pi[i] && pk[i] == p);
        }
        lemma_candidate_in_plan(nk, entries, files, root, true, p);
    }
}


/// Law: the decisions of a note plan for a note present on both sides. For a note stored
/// locally and listed remotely at the same path (each the only one there): with a record
/// of the path from an earlier sync (the only one), a change on both sides is a conflict
/// unless the copies are identical in time and size, a change only here is an upload, a
/// change only there is a download of the listed entry, and no change does nothing;
/// without a record, copies that differ are a conflict and identical ones need nothing.
#[verifier::rlimit(40)]
pub proof fn law_note_plan_both_sides(
    notes: Seq<LocalNote>,
    entries: Seq<RemoteEntry>,
    files: Seq<FileState>,
    root: Seq<char>,
    k: int,
    j: int,
)
    requires
        0 <= k < notes.len(),
        0 <= j < entries.len(),
        !entries[j].is_collection,
        relative_path_spec(entries[j].href@, root) == note_key(notes[k]),
        path_in_scope(note_key(notes[k]), false),
        forall|a: int| 0 <= a < notes.len() && a != k ==> note_key(notes[a]) != note_key(notes[k]),
        forall|b: int| 0 <= b < entries.len() && b != j && !entries[b].is_collection
            ==> relative_path_spec(entries[b].href@, root) != note_key(notes[k]),
        forall|i1: int, i2: int| 0 <= i1 < files.len() && 0 <= i2 < files.len() && files[i1].path@ == note_key(notes[k])
            && files[i2].path@ == note_key(notes[k]) ==> i1 == i2,
    ensures
        ({
            let p = note_key(notes[k]);
            let ln = notes[k];
            let re = entries[j];
            let act = plan_action(note_plan(notes, entries, files, root), p);
            let same = local_remote_identical(ln.note.updated_at, ln.markdown_size, re@);
            &&& !recorded_at(files, p) ==> act == (if same { None } else { Some(SyncActionView::Conflict(p, ln.note@, re@)) })
            &&& forall|i: int| 0 <= i < files.len() && #[trigger] files[i].path@ == p ==> {
                let lc = local_changed(ln.note.updated_at, ln.markdown_size, files[i].meta);
                let rc = remote_changed(re@, files[i].meta);
                &&& lc && rc && !same ==> act == Some(SyncActionView::Conflict(p, ln.note@, re@))
                &&& lc && rc && same ==> act is None
                &&& lc && !rc ==> act == Some(SyncActionView::Upload(p))
                &&& !lc && rc ==> act == Some(SyncActionView::Download(p, re@))
                &&& !lc && !rc ==> act is None
            }
        }),
{
    let p = note_key(notes[k]);
    let nk = note_keys(notes);
    let rk = remote_keys(entries, root);
    let ri = remote_included(entries, root, false);
    let pk = file_paths(files);
    assert(nk.contains(p)) by {
        assert(nk[k] == p);
    }
    lemma_candidate_in_plan(nk, entries, files, root, false, p);
    let paths = plan_paths(nk, entries, files, root, false);
    lemma_note_plan_upto_actions(paths, paths.len() as int, notes, entries, files, root, p);
    assert(paths.take(paths.len() as int) =~= paths);
    lemma_last_index_match(nk, all_true(notes.len()), p, notes.len() as int, k);
    assert(ri[j] && rk[j] == p);
    assert forall|b: int| j < b < entries.len() implies !(ri[b] && rk[b] == p) by {}
    lemma_last_index_match(rk, ri, p, entries.len() as int, j);
    if recorded_at(files, p) {
        let i = choose|i: int| 0 <= i < files.len() && #[trigger] files[i].path@ == p;
        assert forall|a: int| i < a < files.len() implies !(all_true(files.len())[a] && pk[a] == p) by {}
        lemma_last_index_match(pk, all_true(files.len()), p, files.len() as int, i);
    } else {
        assert forall|a: int| 0 <= a < files.len() implies !(all_true(files.len())[a] && pk[a] == p) by {}
        lemma_last_index_none(pk, all_true(files.len()), p, files.len() as int);
    }
}


/// Law: the decisions of a raw plan for a file present on both sides. Raw files never
/// change in place, so a file stored locally and listed remotely at the same raw path
/// (each the only one there) is uploaded again only when the remote size is known,
/// non-zero and differs from the local one, and (with a record from an earlier sync,
/// the only one) the recorded ETag is not the listed one; otherwise nothing is done.
#[verifier::rlimit(40)]
pub proof fn law_raw_plan_both_sides(
    raws: Seq<LocalRawFile>,
    entries: Seq<RemoteEntry>,
    files: Seq<FileState>,
    root: Seq<char>,
    k: int,
    j: int,
)
    requires
        0 <= k < raws.len(),
        0 <= j < entries.len(),
        !entries[j].is_collection,
        relative_path_spec(entries[j].href@, root) == raws[k].relative_path@,
        is_raw_path(raws[k].relative_path@),
        forall|a: int| 0 <= a < raws.len() && a != k ==> raws[a].relative_path@ != raws[k].relative_path@,
        forall|b: int| 0 <= b < entries.len() && b != j && !entries[b].is_collection
            ==> relative_path_spec(entries[b].href@, root) != raws[k].relative_path@,
        forall|i1: int, i2: int| 0 <= i1 < files.len() && 0 <= i2 < files.len() && files[i1].path@ == raws[k].relative_path@
            && files[i2].path@ == raws[k].relative_path@ ==> i1 == i2,
    ensures
        ({
            let p = raws[k].relative_path@;
            let re = entries[j];
            let rs: u64 = match re.size { Some(x) => x, None => 0 };
            let sizes_differ = rs != 0 && raws[k].size != rs;
            let act = plan_action(raw_plan(raws, entries, files, root), p);
            &&& !recorded_at(files, p) ==> act == (if sizes_differ { Some(SyncActionView::Upload(p)) } else { None })
            &&& forall|i: int| 0 <= i < files.len() && #[trigger] files[i].path@ == p ==> {
                let etag_same = match (re.etag, files[i].meta.etag) {
                    (Some(a), Some(b)) => a@ == b@,
                    _ => false,
                };
                act == (if sizes_differ && !etag_same { Some(SyncActionView::Upload(p)) } else { None })
            }
        }),
{
    let p = raws[k].relative_path@;
    let nk = raw_keys(raws);
    let rk = remote_keys(entries, root);
    let ri = remote_included(entries, root, true);
    let pk = file_paths(files);
    assert(nk.contains(p)) by {
        assert(nk[k] == p);
    }
    lemma_candidate_in_plan(nk, entries, files, root, true, p);
    let paths = plan_paths(nk, entries, files, root, true);
    lemma_raw_plan_upto_actions(paths, paths.len() as int, raws, entries, files, root, p);
    assert(paths.take(paths.len() as int) =~= paths);
    assert forall|a: int| k < a < raws.len() implies !(all_true(raws.len())[a] && nk[a] == p) by {}
    lemma_last_index_match(nk, all_true(raws.len()), p, raws.len() as int, k);
    assert(ri[j] && rk[j] == p);
    assert forall|b: int| j < b < entries.len() implies !(ri[b] && rk[b] == p) by {}
    lemma_last_index_match(rk, ri, p, entries.len() as int, j);
    if recorded_at(files, p) {
        let i = choose|i: int| 0 <= i < files.len() && #[trigger] files[i].path@ == p;
        assert forall|a: int| i < a < files.len() implies !(all_true(files.len())[a] && pk[a] == p) by {}
        lemma_last_index_match(pk, all_true(files.len()), p, files.len() as int, i);
    } else {
        assert forall|a: int| 0 <= a < files.len() implies !(all_true(files.len())[a] && pk[a] == p) by {}
        lemma_last_index_none(pk, all_true(files.len()), p, files.len() as int);
    }
}

} // verus!
