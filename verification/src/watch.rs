//! File-system events of the vault: which paths count as notes, and how a raw watcher
//! event becomes vault events. Running the watcher is the caller's.
use vstd::prelude::*;
use crate::models::strings_view;
use crate::text::{chars_of, chars_eq};
use crate::search::char_vecs;
use crate::vault::{path_starts_with, stripped_segments, path_extension, segments_of, starts_with_path, extension_of, path_segments};

verus! {

/// A change to a note file of the vault.
#[derive(Debug)]
pub enum VaultEvent {
    Create(String),
    Modify(String),
    Delete(String),
    Rename(String, String),
}

/// Abstract value of a vault event.
pub enum VaultEventView {
    Create(Seq<char>),
    Modify(Seq<char>),
    Delete(Seq<char>),
    Rename(Seq<char>, Seq<char>),
}

impl View for VaultEvent {
    type V = VaultEventView;

    open spec fn view(&self) -> VaultEventView {
        match self {
            VaultEvent::Create(p) => VaultEventView::Create(p@),
            VaultEvent::Modify(p) => VaultEventView::Modify(p@),
            VaultEvent::Delete(p) => VaultEventView::Delete(p@),
            VaultEvent::Rename(a, b) => VaultEventView::Rename(a@, b@),
        }
    }
}

/// The kind of a raw watcher event, as far as the vault tells them apart.
#[derive(Debug, Clone, Copy, PartialEq, Eq)]
pub enum WatchKind {
    /// A file was created.
    Create,
    /// A file was renamed (its name modified).
    Rename,
    /// A file was otherwise modified.
    Modify,
    /// A file was removed.
    Remove,
    /// Anything else (access, unknown).
    Other,
}

/// A raw watcher event: its kind and the paths it names.
#[derive(Debug)]
pub struct WatchEvent {
    pub kind: WatchKind,
    pub paths: Vec<String>,
}

/// A batch of vault changes handed to consumers.
#[derive(Debug)]
pub struct VaultUpdated {
    /// Files created or modified.
    pub modified: Vec<String>,
    /// Files deleted.
    pub deleted: Vec<String>,
    /// Renames as (old path, new path).
    pub renamed: Vec<(String, String)>,
}

/// `.noda`
pub open spec fn noda_segment() -> Seq<char> {
    seq!['.', 'n', 'o', 'd', 'a']
}

/// A note file of the vault: under the vault root, not inside any `.noda` directory,
/// with the extension `md`.
pub open spec fn valid_file(path: Seq<char>, root: Seq<char>) -> bool {
    path_starts_with(path, root)
        && !stripped_segments(path, root).contains(noda_segment())
        && path_extension(path) == Some(seq!['m', 'd'])
}

/// `true` when `path` is a note file of the vault rooted at `vault_root`.
pub fn is_valid_file(path: &str, vault_root: &str) -> (r: bool)
    ensures
        r == valid_file(path@, vault_root@),
{
    let p = chars_of(path);
    let root = chars_of(vault_root);
    if !starts_with_path(p.as_slice(), root.as_slice()) {
        return false;
    }
    let ps = segments_of(p.as_slice());
    let rs = segments_of(root.as_slice());
    let ghost rest = stripped_segments(path@, vault_root@);
    let mut i: usize = rs.len();
    while i < ps.len()
        invariant
            rs@.len() <= i <= ps@.len(),
            char_vecs(ps@) == path_segments(path@),
            char_vecs(rs@) == path_segments(vault_root@),
            rest == char_vecs(ps@).skip(rs@.len() as int),
            forall|j: int| 0 <= j < i - rs@.len() ==> rest[j] != noda_segment(),
        decreases ps.len() - i,
    {
        assert(rest[i - rs@.len()] == ps@[i as int]@);
        if chars_eq(ps[i].as_slice(), &['.', 'n', 'o', 'd', 'a']) {
            proof {
                assert(['.', 'n', 'o', 'd', 'a']@ =~= noda_segment());
                assert(rest.contains(noda_segment()));
            }
            return false;
        }
        proof {
            assert(['.', 'n', 'o', 'd', 'a']@ =~= noda_segment());
        }
        i += 1;
    }
    assert(!rest.contains(noda_segment())) by {
        if rest.contains(noda_segment()) {
            let k = choose|k: int| 0 <= k < rest.len() && rest[k] == noda_segment();
            assert(k < i - rs@.len());
        }
    }
    match extension_of(path) {
        Some(e) => {
            let ec = chars_of(e.as_str());
            let md = ['m', 'd'];
            assert(md@ =~= seq!['m', 'd']);
            chars_eq(ec.as_slice(), &md)
        },
        None => false,
    }
}

/// Which vault event a path turns into.
pub enum PathChange {
    Created,
    Modified,
    Deleted,
}

/// The vault event of one kind for one path.
pub open spec fn change_event(c: PathChange, p: Seq<char>) -> VaultEventView {
    match c {
        PathChange::Created => VaultEventView::Create(p),
        PathChange::Modified => VaultEventView::Modify(p),
        PathChange::Deleted => VaultEventView::Delete(p),
    }
}

/// One event of kind `c` for each note file among `paths`, in order.
pub open spec fn changes_of(paths: Seq<Seq<char>>, root: Seq<char>, c: PathChange) -> Seq<VaultEventView>
    decreases paths.len(),
{
    if paths.len() == 0 {
        Seq::empty()
    } else {
        let r = changes_of(paths.drop_last(), root, c);
        if valid_file(paths.last(), root) { r.push(change_event(c, paths.last())) } else { r }
    }
}

/// The vault events of a rename: with two paths, a rename between note files, else the
/// deletion or creation of the one that is a note file; with one path, a modification.
pub open spec fn rename_events(paths: Seq<Seq<char>>, root: Seq<char>) -> Seq<VaultEventView> {
    if paths.len() == 2 {
        let from_valid = valid_file(paths[0], root);
        let to_valid = valid_file(paths[1], root);
        if from_valid && to_valid {
            seq![VaultEventView::Rename(paths[0], paths[1])]
        } else if from_valid {
            seq![VaultEventView::Delete(paths[0])]
        } else if to_valid {
            seq![VaultEventView::Create(paths[1])]
        } else {
            Seq::empty()
        }
    } else if paths.len() == 1 {
        if valid_file(paths[0], root) { seq![VaultEventView::Modify(paths[0])] } else { Seq::empty() }
    } else {
        Seq::empty()
    }
}

/// The vault events of a raw event.
pub open spec fn events_of(kind: WatchKind, paths: Seq<Seq<char>>, root: Seq<char>) -> Seq<VaultEventView> {
    match kind {
        WatchKind::Create => changes_of(paths, root, PathChange::Created),
        WatchKind::Rename => rename_events(paths, root),
        WatchKind::Modify => changes_of(paths, root, PathChange::Modified),
        WatchKind::Remove => changes_of(paths, root, PathChange::Deleted),
        WatchKind::Other => Seq::empty(),
    }
}

/// The views of a list of events.
pub open spec fn event_views(v: Seq<VaultEvent>) -> Seq<VaultEventView> {
    v.map_values(|e: VaultEvent| e@)
}


fn change_of(c: &PathChange, p: String) -> (r: VaultEvent)
    ensures
        r@ == change_event(*c, p@),
{
    match c {
        PathChange::Created => VaultEvent::Create(p),
        PathChange::Modified => VaultEvent::Modify(p),
        PathChange::Deleted => VaultEvent::Delete(p),
    }
}

fn changes(paths: Vec<String>, vault_root: &str, c: PathChange) -> (r: Vec<VaultEvent>)
    ensures
        event_views(r@) == changes_of(strings_view(paths@), vault_root@, c),
{
    let ghost orig = strings_view(paths@);
    let n: usize = paths.len();
    let mut rest = paths;
    let mut out: Vec<VaultEvent> = Vec::new();
    let mut k: usize = 0;
    while rest.len() > 0
        invariant
            k <= n,
            orig.len() == n,
            rest@.len() == n - k,
            strings_view(rest@) == orig.skip(k as int),
            event_views(out@) == changes_of(orig.take(k as int), vault_root@, c),
        decreases rest.len(),
    {
        let ghost before = rest@;
        let p = rest.remove(0);
        proof {
            assert(strings_view(before)[0] == before[0]@);
            assert(orig.skip(k as int)[0] == orig[k as int]);
            assert(p@ == orig[k as int]);
            assert(rest@ =~= before.drop_first());
            assert(strings_view(rest@) =~= strings_view(before).drop_first());
            assert(orig.take(k + 1).drop_last() =~= orig.take(k as int));
            assert(orig.take(k + 1).last() == p@);
            assert(strings_view(rest@) =~= orig.skip(k + 1));
        }
        if is_valid_file(p.as_str(), vault_root) {
            let ghost o = out@;
            let e = change_of(&c, p);
            out.push(e);
            proof {
                assert(event_views(out@) =~= event_views(o).push(e@));
            }
        }
        k += 1;
    }
    assert(orig.take(n as int) =~= orig);
    out
}

/// Turns a raw watcher event into the vault events it means (see [`events_of`]).
pub fn process_event(event: WatchEvent, vault_root: &str) -> (r: Vec<VaultEvent>)
    ensures
        event_views(r@) == events_of(event.kind, strings_view(event.paths@), vault_root@),
{
    let ghost ps = strings_view(event.paths@);
    match event.kind {
        WatchKind::Create => changes(event.paths, vault_root, PathChange::Created),
        WatchKind::Modify => changes(event.paths, vault_root, PathChange::Modified),
        WatchKind::Remove => changes(event.paths, vault_root, PathChange::Deleted),
        WatchKind::Other => {
            let r: Vec<VaultEvent> = Vec::new();
            assert(event_views(r@) =~= Seq::<VaultEventView>::empty());
            r
        },
        WatchKind::Rename => {
            let mut r: Vec<VaultEvent> = Vec::new();
            let paths = event.paths;
            if paths.len() == 2 {
                let from = &paths[0];
                let to = &paths[1];
                assert(ps[0] == from@ && ps[1] == to@);
                let from_valid = is_valid_file(from.as_str(), vault_root);
                let to_valid = is_valid_file(to.as_str(), vault_root);
                if from_valid && to_valid {
                    r.push(VaultEvent::Rename(from.clone(), to.clone()));
                } else if from_valid && !to_valid {
                    r.push(VaultEvent::Delete(from.clone()));
                } else if !from_valid && to_valid {
                    r.push(VaultEvent::Create(to.clone()));
                }
            } else if paths.len() == 1 {
                let p = &paths[0];
                assert(ps[0] == p@);
                if is_valid_file(p.as_str(), vault_root) {
                    r.push(VaultEvent::Modify(p.clone()));
                }
            }
            assert(event_views(r@) =~= rename_events(ps, vault_root@));
            r
        },
    }
}

} // verus!
