//! The trash: notes moved to `.noda/trash/` as `<id>.md` with a `<id>.json` sidecar
//! that remembers where they came from. Moving and reading the files is the caller's.
use vstd::prelude::*;
use crate::models::NoteId;
use crate::time::{Timestamp, nanos_of, is_before};
use crate::text::{chars_of, string_of, extend_chars, join_with, join_chars};
use crate::search::char_vecs;
use crate::vault::{path_join, join_path, path_starts_with, stripped_segments, starts_with_path, segments_of, path_segments};

verus! {

/// A trashed note's sidecar record.
#[derive(Debug)]
pub struct TrashEntry {
    pub note_id: NoteId,
    pub id: Option<NoteId>,
    pub original_path: String,
    pub deleted_at: Timestamp,
    pub filename: String,
    pub title: String,
}

/// The trash directory of a vault: `<vault>/.noda/trash`.
pub open spec fn trash_dir_spec(vault: Seq<char>) -> Seq<char> {
    path_join(path_join(vault, seq!['.', 'n', 'o', 'd', 'a']), seq!['t', 'r', 'a', 's', 'h'])
}

/// The trash directory of a vault.
pub fn trash_dir(vault_path: &str) -> (r: String)
    ensures
        r@ == trash_dir_spec(vault_path@),
{
    let noda = string_of(&['.', 'n', 'o', 'd', 'a']);
    let t = string_of(&['t', 'r', 'a', 's', 'h']);
    let d = join_path(vault_path, noda.as_str());
    join_path(d.as_str(), t.as_str())
}

/// The file name of a trashed note: `<id>.md`.
pub open spec fn trashed_file_name(id: Seq<char>) -> Seq<char> {
    id + seq!['.', 'm', 'd']
}

/// The file name of a trashed note's sidecar: `<id>.json`.
pub open spec fn sidecar_file_name(id: Seq<char>) -> Seq<char> {
    id + seq!['.', 'j', 's', 'o', 'n']
}

/// The sidecar file name of note `id`.
pub fn sidecar_name(id: &str) -> (r: String)
    ensures
        r@ == sidecar_file_name(id@),
{
    let mut v = chars_of(id);
    extend_chars(&mut v, &['.', 'j', 's', 'o', 'n']);
    assert(v@ =~= sidecar_file_name(id@));
    string_of(&v)
}

/// Where a note path given for deletion lies: relative paths are under the vault,
/// absolute ones stand as they are.
pub fn note_location(vault_path: &str, note_path: &str) -> (r: String)
    ensures
        r@ == path_join(vault_path@, note_path@),
{
    join_path(vault_path, note_path)
}

/// The path recorded as a trashed note's origin: an absolute path under the vault
/// becomes its components after the vault's, joined by `/`; an absolute path elsewhere,
/// and a relative path, stay as given.
pub open spec fn original_path_spec(vault: Seq<char>, note_path: Seq<char>) -> Seq<char> {
    if note_path.len() > 0 && note_path[0] == '/' && path_starts_with(note_path, vault) {
        join_with(stripped_segments(note_path, vault), seq!['/'])
    } else {
        note_path
    }
}

/// The origin to record for a note path (see [`original_path_spec`]).
pub fn original_path(vault_path: &str, note_path: &str) -> (r: String)
    ensures
        r@ == original_path_spec(vault_path@, note_path@),
{
    let p = chars_of(note_path);
    let v = chars_of(vault_path);
    if p.len() > 0 && p[0] == '/' && starts_with_path(p.as_slice(), v.as_slice()) {
        let ps = segments_of(p.as_slice());
        let vs = segments_of(v.as_slice());
        let mut rest: Vec<Vec<char>> = Vec::new();
        let mut i: usize = vs.len();
        assert(char_vecs(vs@).len() <= char_vecs(ps@).len());
        while i < ps.len()
            invariant
                vs@.len() <= i <= ps@.len(),
                char_vecs(rest@) == char_vecs(ps@).subrange(vs@.len() as int, i as int),
            decreases ps.len() - i,
        {
            let ghost before = rest@;
            rest.push(ps[i].clone());
            proof {
                assert(char_vecs(rest@) =~= char_vecs(before).push(ps@[i as int]@));
                assert(char_vecs(ps@).subrange(vs@.len() as int, i + 1) =~= char_vecs(ps@).subrange(vs@.len() as int, i as int).push(ps@[i as int]@));
            }
            i += 1;
        }
        assert(char_vecs(rest@) =~= stripped_segments(note_path@, vault_path@));
        assert(rest@.map_values(|x: Vec<char>| x@) == char_vecs(rest@));
        let j = join_chars(&rest, &['/']);
        assert(['/']@ =~= seq!['/']);
        return string_of(&j);
    }
    string_of(&p)
}

/// The record of a note moved to the trash now.
pub fn new_trash_entry(note_id: &NoteId, title: &str, vault_path: &str, note_path: &str, now: Timestamp) -> (r: TrashEntry)
    ensures
        r.note_id.0@ == note_id.0@,
        (r.id matches Some(i) && i.0@ == note_id.0@),
        r.original_path@ == original_path_spec(vault_path@, note_path@),
        r.deleted_at == now,
        r.filename@ == trashed_file_name(note_id.0@),
        r.title@ == title@,
{
    let mut f = chars_of(note_id.0.as_str());
    extend_chars(&mut f, &['.', 'm', 'd']);
    assert(f@ =~= trashed_file_name(note_id.0@));
    TrashEntry {
        note_id: note_id.copy(),
        id: Some(note_id.copy()),
        original_path: original_path(vault_path, note_path),
        deleted_at: now,
        filename: string_of(&f),
        title: title.to_string(),
    }
}

/// `Untitled`
pub open spec fn untitled() -> Seq<char> {
    seq!['U', 'n', 't', 'i', 't', 'l', 'e', 'd']
}

/// The title a listed entry shows: its own; else the title in the trashed file's
/// frontmatter (`None` where it could not be read); else `Untitled`.
pub open spec fn listed_title(own: Seq<char>, front_title: Option<Seq<char>>) -> Seq<char> {
    if own.len() > 0 {
        own
    } else {
        match front_title {
            Some(t) => if t.len() > 0 { t } else { untitled() },
            None => untitled(),
        }
    }
}

/// Completes a sidecar record read back from disk: a missing `id` is the note's id, and
/// an empty title is filled in (see [`listed_title`]).
pub fn complete_listed(entry: &mut TrashEntry, front_title: Option<String>)
    ensures
        final(entry).note_id.0@ == old(entry).note_id.0@,
        old(entry).id is None ==> (final(entry).id matches Some(i) && i.0@ == old(entry).note_id.0@),
        old(entry).id matches Some(i) ==> (final(entry).id matches Some(j) && j.0@ == i.0@),
        final(entry).original_path@ == old(entry).original_path@,
        final(entry).deleted_at == old(entry).deleted_at,
        final(entry).filename@ == old(entry).filename@,
        final(entry).title@ == listed_title(old(entry).title@, match front_title { Some(t) => Some(t@), None => None }),
{
    if entry.id.is_none() {
        entry.id = Some(entry.note_id.copy());
    }
    let own = chars_of(entry.title.as_str());
    if own.len() == 0 {
        let mut t = match front_title {
            Some(ft) => ft,
            None => String::new(),
        };
        let tc = chars_of(t.as_str());
        if tc.len() == 0 {
            t = string_of(&['U', 'n', 't', 'i', 't', 'l', 'e', 'd']);
        }
        entry.title = t;
    }
}

/// `x` inserted into a list sorted newest first: after every entry not older.
pub open spec fn insert_by_deletion(sorted: Seq<TrashEntry>, x: TrashEntry) -> Seq<TrashEntry>
    decreases sorted.len(),
{
    if sorted.len() == 0 || nanos_of(sorted.last().deleted_at) >= nanos_of(x.deleted_at) {
        sorted.push(x)
    } else {
        insert_by_deletion(sorted.drop_last(), x).push(sorted.last())
    }
}

/// The entries sorted newest first, stably.
pub open spec fn sort_by_deletion(v: Seq<TrashEntry>) -> Seq<TrashEntry>
    decreases v.len(),
{
    if v.len() == 0 {
        Seq::empty()
    } else {
        insert_by_deletion(sort_by_deletion(v.drop_last()), v.last())
    }
}

/// No entry was deleted earlier than one after it.
pub open spec fn deleted_newest_first(v: Seq<TrashEntry>) -> bool {
    forall|i: int, j: int| 0 <= i < j < v.len() ==> nanos_of((#[trigger] v[i]).deleted_at) >= nanos_of((#[trigger] v[j]).deleted_at)
}

fn insert_deleted(v: &mut Vec<TrashEntry>, x: TrashEntry)
    ensures
        final(v)@ == insert_by_deletion(old(v)@, x),
    decreases old(v)@.len(),
{
    if v.len() == 0 || !is_before(v[v.len() - 1].deleted_at, x.deleted_at) {
        v.push(x);
        return;
    }
    let last = v.pop().unwrap();
    insert_deleted(v, x);
    v.push(last);
}

/// Orders trash entries newest first, keeping the listed order among equal times.
pub fn order_trash(items: Vec<TrashEntry>) -> (r: Vec<TrashEntry>)
    ensures
        r@ == sort_by_deletion(items@),
        deleted_newest_first(r@),
        r@.to_multiset() == items@.to_multiset(),
{
    let ghost orig = items@;
    let n: usize = items.len();
    let mut rest = items;
    let mut out: Vec<TrashEntry> = Vec::new();
    let mut k: usize = 0;
    while rest.len() > 0
        invariant
            k <= n,
            orig.len() == n,
            rest@ == orig.skip(k as int),
            rest@.len() == n - k,
            out@ == sort_by_deletion(orig.take(k as int)),
        decreases rest.len(),
    {
        let x = rest.remove(0);
        proof {
            assert(orig.take(k + 1).drop_last() =~= orig.take(k as int));
            assert(orig.take(k + 1).last() == x);
            assert(rest@ =~= orig.skip(k + 1));
        }
        insert_deleted(&mut out, x);
        k += 1;
    }
    assert(orig.take(k as int) =~= orig);
    proof {
        law_trash_order(orig);
    }
    out
}

proof fn lemma_insert_deletion(sorted: Seq<TrashEntry>, x: TrashEntry)
    requires
        deleted_newest_first(sorted),
    ensures
        deleted_newest_first(insert_by_deletion(sorted, x)),
        insert_by_deletion(sorted, x).to_multiset() == sorted.to_multiset().insert(x),
        forall|k: int| 0 <= k < insert_by_deletion(sorted, x).len() ==>
            (#[trigger] insert_by_deletion(sorted, x)[k]) == x || sorted.contains(insert_by_deletion(sorted, x)[k]),
    decreases sorted.len(),
{
    broadcast use vstd::seq_lib::group_to_multiset_ensures;
    let r = insert_by_deletion(sorted, x);
    if sorted.len() == 0 || nanos_of(sorted.last().deleted_at) >= nanos_of(x.deleted_at) {
        assert forall|k: int| 0 <= k < r.len() implies (#[trigger] r[k]) == x || sorted.contains(r[k]) by {
            if k < sorted.len() {
                assert(r[k] == sorted[k]);
            }
        }
    } else {
        let init = sorted.drop_last();
        let last = sorted.last();
        assert(deleted_newest_first(init));
        lemma_insert_deletion(init, x);
        let mid = insert_by_deletion(init, x);
        assert(r == mid.push(last));
        assert forall|i: int, j: int| 0 <= i < j < r.len() implies nanos_of((#[trigger] r[i]).deleted_at) >= nanos_of((#[trigger] r[j]).deleted_at) by {
            if j == r.len() - 1 {
                assert(r[j] == last);
                assert(r[i] == mid[i]);
                if mid[i] != x {
                    let k = choose|k: int| 0 <= k < init.len() && init[k] == mid[i];
                    assert(init[k] == sorted[k]);
                    assert(nanos_of(sorted[k].deleted_at) >= nanos_of(sorted[sorted.len() - 1].deleted_at));
                }
            } else {
                assert(r[i] == mid[i]);
                assert(r[j] == mid[j]);
            }
        }
        assert(sorted =~= init.push(last));
        assert(r.to_multiset() =~= sorted.to_multiset().insert(x));
        assert forall|k: int| 0 <= k < r.len() implies (#[trigger] r[k]) == x || sorted.contains(r[k]) by {
            if k == r.len() - 1 {
                assert(sorted[sorted.len() - 1] == r[k]);
            } else {
                assert(r[k] == mid[k]);
                if mid[k] != x {
                    let q = choose|q: int| 0 <= q < init.len() && init[q] == mid[k];
                    assert(sorted[q] == init[q]);
                }
            }
        }
    }
}

/// The trash listing is newest first and holds exactly the listed entries.
pub proof fn law_trash_order(items: Seq<TrashEntry>)
    ensures
        deleted_newest_first(sort_by_deletion(items)),
        sort_by_deletion(items).to_multiset() == items.to_multiset(),
    decreases items.len(),
{
    broadcast use vstd::seq_lib::group_to_multiset_ensures;
    if items.len() > 0 {
        law_trash_order(items.drop_last());
        lemma_insert_deletion(sort_by_deletion(items.drop_last()), items.last());
        assert(items =~= items.drop_last().push(items.last()));
    } else {
        assert(items =~= Seq::<TrashEntry>::empty());
    }
}

} // verus!
