//! Note history: snapshots stored flat in `.noda/history/` as
//! `<id>_<YYYYMMDD-HHMMSS>_<reason>.md`, listed newest first, pruned by age and count,
//! restored, and compared line by line with the current note. The file reads and writes
//! are the caller's.
use vstd::prelude::*;
use chrono::TimeZone;
use crate::models::{Note, NoteId, NoteView};
use crate::time::{Timestamp, nanos_of, is_before};
use crate::text::{has_prefix, pieces, join_with, chars_of, string_of, extend_chars, starts_with, split_on, join_chars, chars_eq};
use crate::search::char_vecs;
use crate::vault::{path_join, join_path, path_file_name, path_extension, last_index_of, file_name_of, extension_of};
use crate::paths::head_to;
use crate::notes::{Frontmatter, note_from_file, file_note_spec, note_file_name};
use crate::dtos::DiffChunk;

verus! {

/// A stored snapshot of a note.
#[derive(Debug)]
pub struct Snapshot {
    pub note_id: NoteId,
    pub timestamp: Timestamp,
    pub absolute_path: String,
    pub reason: String,
}

/// The text chrono's `DateTime<Utc>` gives under the format `%Y%m%d_%H%M%S_%3f` for the
/// instant `secs` seconds and `nanos` nanoseconds after the epoch (empty where chrono
/// cannot represent the instant).
pub uninterp spec fn compact_utc_text(secs: i64, nanos: u32) -> Seq<char>;

/// chrono's `DateTime::<Utc>::from_timestamp`, then `format("%Y%m%d_%H%M%S_%3f")`.
/// Claimed: the result is the named text of the instant.
#[verifier::external_body]
fn format_compact_utc(t: Timestamp) -> (r: String)
    ensures
        r@ == compact_utc_text(t.secs, t.nanos),
{
    match chrono::DateTime::from_timestamp(t.secs, t.nanos) {
        Some(d) => d.format("%Y%m%d_%H%M%S_%3f").to_string(),
        None => String::new(),
    }
}

impl Snapshot {
    /// The snapshot's instant as a file-name-safe text, `YYYYMMDD_HHmmss_SSS` in UTC.
    pub fn timestamp_filename(&self) -> (r: String)
        ensures
            r@ == compact_utc_text(self.timestamp.secs, self.timestamp.nanos),
    {
        format_compact_utc(self.timestamp)
    }
}

/// The history directory of a vault: `<vault>/.noda/history`.
pub open spec fn history_dir_spec(vault: Seq<char>) -> Seq<char> {
    path_join(path_join(vault, seq!['.', 'n', 'o', 'd', 'a']), seq!['h', 'i', 's', 't', 'o', 'r', 'y'])
}

/// The history directory of a vault.
pub fn history_dir(vault_path: &str) -> (r: String)
    ensures
        r@ == history_dir_spec(vault_path@),
{
    let noda = string_of(&['.', 'n', 'o', 'd', 'a']);
    let h = string_of(&['h', 'i', 's', 't', 'o', 'r', 'y']);
    let d = join_path(vault_path, noda.as_str());
    join_path(d.as_str(), h.as_str())
}

/// The file name of a snapshot: `<id>_<date>_<reason>.md`.
pub open spec fn snapshot_name_of(id: Seq<char>, date: Seq<char>, reason: Seq<char>) -> Seq<char> {
    id + seq!['_'] + date + seq!['_'] + reason + seq!['.', 'm', 'd']
}

/// The file name of a snapshot of note `id` taken at the local time `date`
/// (`YYYYMMDD-HHMMSS`) for `reason`.
pub fn snapshot_file_name(id: &str, date: &str, reason: &str) -> (r: String)
    ensures
        r@ == snapshot_name_of(id@, date@, reason@),
{
    let mut v = chars_of(id);
    v.push('_');
    let d = chars_of(date);
    extend_chars(&mut v, d.as_slice());
    v.push('_');
    let rs = chars_of(reason);
    extend_chars(&mut v, rs.as_slice());
    extend_chars(&mut v, &['.', 'm', 'd']);
    assert(v@ =~= snapshot_name_of(id@, date@, reason@));
    string_of(&v)
}

/// The date text and reason a snapshot file of note `id` carries in its name: the file
/// is a `.md` file whose name starts with the id, and whose stem, split at `_`, has at
/// least three parts, the first being the id; the date is the second part, the reason
/// the rest joined by `_`.
pub open spec fn snapshot_name_parts(path: Seq<char>, id: Seq<char>) -> Option<(Seq<char>, Seq<char>)> {
    match path_file_name(path) {
        Some(name) => {
            if path_extension(path) == Some(seq!['m', 'd']) && has_prefix(name, id) {
                let parts = pieces(name.take(last_index_of(name, '.')), '_');
                if parts.len() >= 3 && parts[0] == id {
                    Some((parts[1], join_with(parts.skip(2), seq!['_'])))
                } else {
                    None
                }
            } else {
                None
            }
        },
        None => None,
    }
}

/// The date text and reason in a snapshot file's name.
#[derive(Debug)]
pub struct SnapshotName {
    pub date_text: String,
    pub reason: String,
}

/// Reads the date text and reason from the name of a snapshot file of note `note_id`
/// (see [`snapshot_name_parts`]); `None` for any other file.
pub fn parse_snapshot_name(path: &str, note_id: &str) -> (r: Option<SnapshotName>)
    ensures
        match r {
            Some(n) => snapshot_name_parts(path@, note_id@) == Some((n.date_text@, n.reason@)),
            None => snapshot_name_parts(path@, note_id@) is None,
        },
{
    let name = match file_name_of(path) {
        Some(n) => n,
        None => return None,
    };
    let is_md = match extension_of(path) {
        Some(e) => {
            let ec = chars_of(e.as_str());
            let md = ['m', 'd'];
            assert(md@ =~= seq!['m', 'd']);
            chars_eq(ec.as_slice(), &md)
        },
        None => false,
    };
    let nc = chars_of(name.as_str());
    let idc = chars_of(note_id);
    if !is_md || !starts_with(nc.as_slice(), idc.as_slice()) {
        return None;
    }
    // A name with the extension `md` has a dot after its first character.
    let mut k: usize = nc.len();
    assert(nc@.take(k as int) =~= nc@);
    while k > 0 && nc[k - 1] != '.'
        invariant
            k <= nc@.len(),
            last_index_of(nc@, '.') == last_index_of(nc@.take(k as int), '.'),
        decreases k,
    {
        proof {
            assert(nc@.take(k as int).drop_last() =~= nc@.take(k - 1));
        }
        k -= 1;
    }
    if k == 0 {
        proof {
            assert(nc@.take(0int).len() == 0);
        }
        return None;
    }
    proof {
        assert(nc@.take(k as int).last() == '.');
    }
    let stem = head_to(nc.as_slice(), k - 1);
    let parts = split_on(stem.as_slice(), '_');
    let ghost pv = parts@.map_values(|p: Vec<char>| p@);
    if parts.len() < 3 || !chars_eq(parts[0].as_slice(), idc.as_slice()) {
        return None;
    }
    let mut rest: Vec<Vec<char>> = Vec::new();
    let mut i: usize = 2;
    while i < parts.len()
        invariant
            2 <= i <= parts@.len(),
            pv == parts@.map_values(|p: Vec<char>| p@),
            rest@.map_values(|p: Vec<char>| p@) == pv.subrange(2, i as int),
        decreases parts.len() - i,
    {
        let ghost before = rest@;
        rest.push(parts[i].clone());
        proof {
            assert(rest@.map_values(|p: Vec<char>| p@) =~= before.map_values(|p: Vec<char>| p@).push(parts@[i as int]@));
            assert(pv.subrange(2, i + 1) =~= pv.subrange(2, i as int).push(pv[i as int]));
        }
        i += 1;
    }
    assert(pv.subrange(2, parts@.len() as int) =~= pv.skip(2));
    let reason = join_chars(&rest, &['_']);
    assert(['_']@ =~= seq!['_']);
    Some(SnapshotName { date_text: string_of(parts[1].as_slice()), reason: string_of(&reason) })
}

/// The epoch milliseconds of an instant (`timestamp_millis`).
pub open spec fn millis_of(t: Timestamp) -> int {
    t.secs as int * 1000 + (t.nanos as int) / 1_000_000
}

/// Index of the first snapshot taken at the millisecond `millis`.
pub fn find_snapshot_at(snapshots: &Vec<Snapshot>, millis: i64) -> (r: Option<usize>)
    ensures
        r matches Some(i) ==> i < snapshots@.len() && millis_of(snapshots@[i as int].timestamp) == millis
            && forall|j: int| 0 <= j < i ==> millis_of((#[trigger] snapshots@[j]).timestamp) != millis,
        r is None ==> forall|j: int| 0 <= j < snapshots@.len() ==> millis_of((#[trigger] snapshots@[j]).timestamp) != millis,
{
    let mut i: usize = 0;
    while i < snapshots.len()
        invariant
            i <= snapshots@.len(),
            forall|j: int| 0 <= j < i ==> millis_of((#[trigger] snapshots@[j]).timestamp) != millis,
        decreases snapshots.len() - i,
    {
        let t = snapshots[i].timestamp;
        let m: i128 = (t.secs as i128) * 1000 + (t.nanos / 1_000_000) as i128;
        if m == millis as i128 {
            return Some(i);
        }
        i += 1;
    }
    None
}

/// Whether chrono reads a snapshot file name's date text as a local date and time
/// (`NaiveDateTime::parse_from_str` with `%Y%m%d-%H%M%S-%3f`, else `%Y%m%d-%H%M%S`).
pub uninterp spec fn snapshot_date_parses(text: Seq<char>) -> bool;

/// The instant a snapshot's date text names: chrono parses it (`%Y%m%d-%H%M%S-%3f`, else
/// `%Y%m%d-%H%M%S`) and reads it in the machine's local time zone (as UTC where the local
/// time is skipped or repeated). Claimed: an instant comes back exactly when the text
/// parses. Which instant is not claimed: it depends on the machine's time zone.
#[verifier::external_body]
pub(crate) fn local_snapshot_instant(date_text: &str) -> (r: Option<Timestamp>)
    ensures
        r is Some <==> snapshot_date_parses(date_text@),
{
    let naive = match chrono::NaiveDateTime::parse_from_str(date_text, "%Y%m%d-%H%M%S-%3f") {
        Ok(n) => n,
        Err(_) => chrono::NaiveDateTime::parse_from_str(date_text, "%Y%m%d-%H%M%S").ok()?,
    };
    let utc = match chrono::Local.from_local_datetime(&naive) {
        chrono::LocalResult::Single(d) => d.with_timezone(&chrono::Utc),
        _ => naive.and_utc(),
    };
    Some(Timestamp { secs: utc.timestamp(), nanos: utc.timestamp_subsec_nanos() })
}

/// The snapshot files of note `id` among `paths`, in order: each file whose name carries
/// the note's identifier and a date text that parses, with its path and reason.
pub open spec fn snapshot_entries(paths: Seq<Seq<char>>, id: Seq<char>) -> Seq<(Seq<char>, Seq<char>)>
    decreases paths.len(),
{
    if paths.len() == 0 {
        Seq::empty()
    } else {
        let rest = snapshot_entries(paths.drop_last(), id);
        let p = paths.last();
        match snapshot_name_parts(p, id) {
            Some((date, reason)) => if snapshot_date_parses(date) { rest.push((p, reason)) } else { rest },
            None => rest,
        }
    }
}

/// The path and reason of each snapshot.
pub open spec fn snapshot_path_reasons(v: Seq<Snapshot>) -> Seq<(Seq<char>, Seq<char>)> {
    v.map_values(|s: Snapshot| (s.absolute_path@, s.reason@))
}

/// The snapshots of note `note_id` among the files `paths` of the history directory,
/// newest first: every file whose name carries the note's identifier and a date text
/// that chrono reads, with its path, its reason and the local instant of its date
/// (see [`local_snapshot_instant`]); files of equal time keep their listed order.
pub fn listed_snapshots(paths: &Vec<String>, note_id: &str) -> (r: Vec<Snapshot>)
    ensures
        exists|found: Seq<Snapshot>| {
            &&& snapshot_path_reasons(found) == snapshot_entries(crate::models::strings_view(paths@), note_id@)
            &&& forall|i: int| 0 <= i < found.len() ==> (#[trigger] found[i]).note_id.0@ == note_id@
            &&& r@ == #[trigger] sort_by_time(found)
        },
        snapshots_newest_first(r@),
{
    let ghost pv = crate::models::strings_view(paths@);
    let mut found: Vec<Snapshot> = Vec::new();
    let mut i: usize = 0;
    while i < paths.len()
        invariant
            i <= paths@.len(),
            pv == crate::models::strings_view(paths@),
            snapshot_path_reasons(found@) == snapshot_entries(pv.take(i as int), note_id@),
            forall|k: int| 0 <= k < found@.len() ==> (#[trigger] found@[k]).note_id.0@ == note_id@,
        decreases paths.len() - i,
    {
        let ghost before = found@;
        proof {
            assert(pv.take(i + 1).drop_last() =~= pv.take(i as int));
            assert(pv.take(i + 1).last() == paths@[i as int]@);
        }
        match parse_snapshot_name(paths[i].as_str(), note_id) {
            Some(n) => {
                match local_snapshot_instant(n.date_text.as_str()) {
                    Some(t) => {
                        let s = Snapshot {
                            note_id: NoteId(note_id.to_string()),
                            timestamp: t,
                            absolute_path: paths[i].clone(),
                            reason: n.reason,
                        };
                        found.push(s);
                        proof {
                            assert(snapshot_path_reasons(found@) =~= snapshot_path_reasons(before).push((paths@[i as int]@, n.reason@)));
                        }
                    },
                    None => {},
                }
            },
            None => {},
        }
        i += 1;
    }
    proof {
        assert(pv.take(paths@.len() as int) =~= pv);
    }
    let ghost f = found@;
    let r = order_snapshots(found);
    assert(r@ == sort_by_time(f));
    r
}

/// `x` inserted into a list sorted newest first: after every snapshot not older.
pub open spec fn insert_by_time(sorted: Seq<Snapshot>, x: Snapshot) -> Seq<Snapshot>
    decreases sorted.len(),
{
    if sorted.len() == 0 || nanos_of(sorted.last().timestamp) >= nanos_of(x.timestamp) {
        sorted.push(x)
    } else {
        insert_by_time(sorted.drop_last(), x).push(sorted.last())
    }
}

/// The snapshots sorted newest first, stably.
pub open spec fn sort_by_time(v: Seq<Snapshot>) -> Seq<Snapshot>
    decreases v.len(),
{
    if v.len() == 0 {
        Seq::empty()
    } else {
        insert_by_time(sort_by_time(v.drop_last()), v.last())
    }
}

/// No snapshot is older than one after it.
pub open spec fn snapshots_newest_first(v: Seq<Snapshot>) -> bool {
    forall|i: int, j: int| 0 <= i < j < v.len() ==> nanos_of((#[trigger] v[i]).timestamp) >= nanos_of((#[trigger] v[j]).timestamp)
}

fn insert_snapshot(v: &mut Vec<Snapshot>, x: Snapshot)
    ensures
        final(v)@ == insert_by_time(old(v)@, x),
    decreases old(v)@.len(),
{
    if v.len() == 0 || !is_before(v[v.len() - 1].timestamp, x.timestamp) {
        v.push(x);
        return;
    }
    let last = v.pop().unwrap();
    insert_snapshot(v, x);
    v.push(last);
}

/// Orders snapshots newest first, keeping the listed order among equal times.
pub fn order_snapshots(items: Vec<Snapshot>) -> (r: Vec<Snapshot>)
    ensures
        r@ == sort_by_time(items@),
        snapshots_newest_first(r@),
        r@.to_multiset() == items@.to_multiset(),
{
    let ghost orig = items@;
    let n: usize = items.len();
    let mut rest = items;
    let mut out: Vec<Snapshot> = Vec::new();
    let mut k: usize = 0;
    while rest.len() > 0
        invariant
            k <= n,
            orig.len() == n,
            rest@ == orig.skip(k as int),
            rest@.len() == n - k,
            out@ == sort_by_time(orig.take(k as int)),
        decreases rest.len(),
    {
        let x = rest.remove(0);
        proof {
            assert(orig.take(k + 1).drop_last() =~= orig.take(k as int));
            assert(orig.take(k + 1).last() == x);
            assert(rest@ =~= orig.skip(k + 1));
        }
        insert_snapshot(&mut out, x);
        k += 1;
    }
    assert(orig.take(k as int) =~= orig);
    proof {
        law_snapshot_order(orig);
    }
    out
}

proof fn lemma_insert_time(sorted: Seq<Snapshot>, x: Snapshot)
    requires
        snapshots_newest_first(sorted),
    ensures
        snapshots_newest_first(insert_by_time(sorted, x)),
        insert_by_time(sorted, x).to_multiset() == sorted.to_multiset().insert(x),
        forall|k: int| 0 <= k < insert_by_time(sorted, x).len() ==>
            (#[trigger] insert_by_time(sorted, x)[k]) == x || sorted.contains(insert_by_time(sorted, x)[k]),
    decreases sorted.len(),
{
    broadcast use vstd::seq_lib::group_to_multiset_ensures;
    let r = insert_by_time(sorted, x);
    if sorted.len() == 0 || nanos_of(sorted.last().timestamp) >= nanos_of(x.timestamp) {
        assert forall|k: int| 0 <= k < r.len() implies (#[trigger] r[k]) == x || sorted.contains(r[k]) by {
            if k < sorted.len() {
                assert(r[k] == sorted[k]);
            }
        }
    } else {
        let init = sorted.drop_last();
        let last = sorted.last();
        assert(snapshots_newest_first(init));
        lemma_insert_time(init, x);
        let mid = insert_by_time(init, x);
        assert(r == mid.push(last));
        assert forall|i: int, j: int| 0 <= i < j < r.len() implies nanos_of((#[trigger] r[i]).timestamp) >= nanos_of((#[trigger] r[j]).timestamp) by {
            if j == r.len() - 1 {
                assert(r[j] == last);
                assert(r[i] == mid[i]);
                if mid[i] != x {
                    let k = choose|k: int| 0 <= k < init.len() && init[k] == mid[i];
                    assert(init[k] == sorted[k]);
                    assert(nanos_of(sorted[k].timestamp) >= nanos_of(sorted[sorted.len() - 1].timestamp));
                }
            } else {
                assert(r[i] == mid[i]);
                assert(r[j] == mid[j]);
            }
        }
        assert(sorted =~= init.push(last));
        assert(r.to_multiset() =~= sorted.to_multiset().insert(x));
        assert forall|k: int| 0 <= k < r.len() implies (#[trigger] r[k]) == x || sorted.contains(r[k]) by {
            if k == r.len() - 1 {
                assert(sorted[sorted.len() - 1] == r[k]);
            } else {
                assert(r[k] == mid[k]);
                if mid[k] != x {
                    let q = choose|q: int| 0 <= q < init.len() && init[q] == mid[k];
                    assert(sorted[q] == init[q]);
                }
            }
        }
    }
}

/// Snapshots are listed newest first, and the listing holds exactly the snapshots found.
pub proof fn law_snapshot_order(items: Seq<Snapshot>)
    ensures
        snapshots_newest_first(sort_by_time(items)),
        sort_by_time(items).to_multiset() == items.to_multiset(),
    decreases items.len(),
{
    broadcast use vstd::seq_lib::group_to_multiset_ensures;
    if items.len() > 0 {
        law_snapshot_order(items.drop_last());
        lemma_insert_time(sort_by_time(items.drop_last()), items.last());
        assert(items =~= items.drop_last().push(items.last()));
    } else {
        assert(items =~= Seq::<Snapshot>::empty());
    }
}

/// The instant `days` days before `now`.
pub open spec fn days_before(now: Timestamp, days: u32) -> Timestamp {
    Timestamp { secs: (now.secs - days * 86400) as i64, nanos: now.nanos }
}

/// The age limit of snapshots kept at most `days` days before `now`.
pub fn age_cutoff(now: Timestamp, days: u32) -> (r: Timestamp)
    requires
        now.secs - days * 86400 >= i64::MIN,
    ensures
        r == days_before(now, days),
{
    let d: i64 = days as i64 * 86400;
    Timestamp { secs: now.secs - d, nanos: now.nanos }
}

/// The snapshots (oldest first) taken before the cutoff.
pub open spec fn aged_out(v: Seq<Snapshot>, cutoff: Timestamp) -> Seq<Snapshot>
    decreases v.len(),
{
    if v.len() == 0 {
        Seq::empty()
    } else {
        let r = aged_out(v.drop_last(), cutoff);
        if nanos_of(v.last().timestamp) < nanos_of(cutoff) { r.push(v.last()) } else { r }
    }
}

/// The snapshots (oldest first) not taken before the cutoff.
pub open spec fn within_age(v: Seq<Snapshot>, cutoff: Timestamp) -> Seq<Snapshot>
    decreases v.len(),
{
    if v.len() == 0 {
        Seq::empty()
    } else {
        let r = within_age(v.drop_last(), cutoff);
        if nanos_of(v.last().timestamp) < nanos_of(cutoff) { r } else { r.push(v.last()) }
    }
}

/// The paths of some snapshots.
pub open spec fn snapshot_paths(v: Seq<Snapshot>) -> Seq<Seq<char>> {
    v.map_values(|s: Snapshot| s.absolute_path@)
}

/// The snapshots a retention policy removes, given a note's snapshots oldest first:
/// first those older than the age cutoff (where there is one), then, of the rest, the
/// oldest beyond the newest `max_count` (where there is a count).
pub open spec fn retention_spec(oldest_first: Seq<Snapshot>, cutoff: Option<Timestamp>, max_count: Option<usize>) -> Seq<Seq<char>> {
    let aged = match cutoff { Some(c) => aged_out(oldest_first, c), None => Seq::empty() };
    let kept = match cutoff { Some(c) => within_age(oldest_first, c), None => oldest_first };
    let excess = match max_count {
        Some(m) => if kept.len() > m { kept.take(kept.len() - m) } else { Seq::empty() },
        None => Seq::empty(),
    };
    snapshot_paths(aged) + snapshot_paths(excess)
}

/// The paths of the snapshots a retention policy removes (see [`retention_spec`]).
pub fn retention_victims(oldest_first: &Vec<Snapshot>, cutoff: Option<Timestamp>, max_count: Option<usize>) -> (r: Vec<String>)
    ensures
        r@.map_values(|s: String| s@) == retention_spec(oldest_first@, cutoff, max_count),
{
    let ghost v = oldest_first@;
    let mut aged: Vec<String> = Vec::new();
    let mut kept: Vec<String> = Vec::new();
    let mut i: usize = 0;
    while i < oldest_first.len()
        invariant
            i <= v.len(),
            v == oldest_first@,
            aged@.map_values(|s: String| s@) == match cutoff { Some(c) => snapshot_paths(aged_out(v.take(i as int), c)), None => Seq::<Seq<char>>::empty() },
            kept@.map_values(|s: String| s@) == match cutoff { Some(c) => snapshot_paths(within_age(v.take(i as int), c)), None => snapshot_paths(v.take(i as int)) },
        decreases oldest_first.len() - i,
    {
        proof {
            assert(v.take(i + 1).drop_last() =~= v.take(i as int));
            assert(v.take(i + 1).last() == v[i as int]);
        }
        let old_one = match cutoff {
            Some(c) => is_before(oldest_first[i].timestamp, c),
            None => false,
        };
        let ghost ab = aged@;
        let ghost kb = kept@;
        if old_one {
            aged.push(oldest_first[i].absolute_path.clone());
            proof {
                assert(aged@.map_values(|s: String| s@) =~= ab.map_values(|s: String| s@).push(v[i as int].absolute_path@));
                let c = cutoff.unwrap();
                assert(snapshot_paths(aged_out(v.take(i + 1), c)) =~= snapshot_paths(aged_out(v.take(i as int), c)).push(v[i as int].absolute_path@));
            }
        } else {
            kept.push(oldest_first[i].absolute_path.clone());
            proof {
                assert(kept@.map_values(|s: String| s@) =~= kb.map_values(|s: String| s@).push(v[i as int].absolute_path@));
                match cutoff {
                    Some(c) => {
                        assert(snapshot_paths(within_age(v.take(i + 1), c)) =~= snapshot_paths(within_age(v.take(i as int), c)).push(v[i as int].absolute_path@));
                    },
                    None => {
                        assert(snapshot_paths(v.take(i + 1)) =~= snapshot_paths(v.take(i as int)).push(v[i as int].absolute_path@));
                    },
                }
            }
        }
        i += 1;
    }
    assert(v.take(v.len() as int) =~= v);
    let ghost kv = match cutoff { Some(c) => within_age(v, c), None => v };
    assert(kept@.map_values(|s: String| s@) == snapshot_paths(kv));
    assert(kept@.len() == kv.len());
    let mut out = aged;
    match max_count {
        Some(m) => {
            if kept.len() > m {
                let excess = kept.len() - m;
                let mut j: usize = 0;
                let ghost ob = out@;
                while j < excess
                    invariant
                        j <= excess,
                        excess <= kept@.len(),
                        out@.map_values(|s: String| s@) == ob.map_values(|s: String| s@) + kept@.take(j as int).map_values(|s: String| s@),
                    decreases excess - j,
                {
                    let ghost before = out@;
                    out.push(kept[j].clone());
                    proof {
                        assert(kept@.take(j + 1).map_values(|s: String| s@) =~= kept@.take(j as int).map_values(|s: String| s@).push(kept@[j as int]@));
                        assert(out@.map_values(|s: String| s@) =~= before.map_values(|s: String| s@).push(kept@[j as int]@));
                    }
                    j += 1;
                }
                proof {
                    let km = kept@.map_values(|s: String| s@);
                    let sp = snapshot_paths(kv);
                    assert(km == sp);
                    assert(kept@.take(excess as int).map_values(|s: String| s@) =~= km.take(excess as int));
                    assert(snapshot_paths(kv.take(excess as int)) =~= sp.take(excess as int));
                }
            } else {
                assert(out@.map_values(|s: String| s@) =~= out@.map_values(|s: String| s@) + snapshot_paths(Seq::<Snapshot>::empty()));
            }
        },
        None => {
            assert(out@.map_values(|s: String| s@) =~= out@.map_values(|s: String| s@) + snapshot_paths(Seq::<Snapshot>::empty()));
        },
    }
    out
}

/// The note a snapshot file holds: its frontmatter's values and the text after it, at
/// `<id>.md`.
pub fn restore_note(front: &Frontmatter, text: &str) -> (r: Note)
    ensures
        r@ == file_note_spec(*front, text@, note_file_name(front.id.0@)),
{
    let mut p = chars_of(front.id.0.as_str());
    extend_chars(&mut p, &['.', 'm', 'd']);
    assert(p@ =~= note_file_name(front.id.0@));
    let ps = string_of(&p);
    note_from_file(front, text, ps.as_str())
}

/// How a line fares in a comparison of two texts.
#[derive(Debug, Clone, Copy, PartialEq, Eq)]
pub enum LineChangeKind {
    Delete,
    Insert,
    Equal,
}

/// A line of a comparison and how it fared.
#[derive(Debug)]
pub struct LineChange {
    pub kind: LineChangeKind,
    pub text: String,
}

/// The views of a group of line changes.
pub open spec fn change_views(g: Seq<LineChange>) -> Seq<(LineChangeKind, Seq<char>)> {
    g.map_values(|c: LineChange| (c.kind, c.text@))
}

/// The views of groups of line changes.
pub open spec fn group_views(gs: Seq<Vec<LineChange>>) -> Seq<Seq<(LineChangeKind, Seq<char>)>> {
    gs.map_values(|g: Vec<LineChange>| change_views(g@))
}

/// The line changes that `similar` reports between two texts: `TextDiff::from_lines`,
/// its operations grouped with three lines of context (`grouped_ops(3)`), and each
/// operation's changes (`iter_changes`) with their tag and text.
pub uninterp spec fn grouped_line_changes(old: Seq<char>, new: Seq<char>) -> Seq<Seq<(LineChangeKind, Seq<char>)>>;

/// `similar::TextDiff::from_lines(old, new)` with `grouped_ops(3)` and `iter_changes`.
/// Claimed: the groups of changes are the named ones of the two texts.
#[verifier::external_body]
fn line_change_groups(old: &str, new: &str) -> (r: Vec<Vec<LineChange>>)
    ensures
        group_views(r@) == grouped_line_changes(old@, new@),
{
    let diff = similar::TextDiff::from_lines(old, new);
    let mut out = Vec::new();
    for group in diff.grouped_ops(3) {
        let mut g = Vec::new();
        for op in group.iter() {
            for c in diff.iter_changes(op) {
                let kind = match c.tag() { similar::ChangeTag::Delete => LineChangeKind::Delete, similar::ChangeTag::Insert => LineChangeKind::Insert, similar::ChangeTag::Equal => LineChangeKind::Equal };
                g.push(LineChange { kind, text: c.value().to_string() });
            }
        }
        out.push(g);
    }
    out
}

/// The tag shown for a line change.
pub open spec fn kind_tag(k: LineChangeKind) -> Seq<char> {
    match k {
        LineChangeKind::Delete => seq!['D', 'e', 'l', 'e', 't', 'e'],
        LineChangeKind::Insert => seq!['I', 'n', 's', 'e', 'r', 't'],
        LineChangeKind::Equal => seq!['E', 'q', 'u', 'a', 'l'],
    }
}

/// The chunk between two groups: `Separator`, `...`.
pub open spec fn separator_chunk() -> (Seq<char>, Seq<char>) {
    (seq!['S', 'e', 'p', 'a', 'r', 'a', 't', 'o', 'r'], seq!['.', '.', '.'])
}

/// The chunks of one group: each change with its tag.
pub open spec fn group_chunks(g: Seq<(LineChangeKind, Seq<char>)>) -> Seq<(Seq<char>, Seq<char>)> {
    g.map_values(|c: (LineChangeKind, Seq<char>)| (kind_tag(c.0), c.1))
}

/// The chunks of a comparison: each group's chunks, with a separator between groups.
pub open spec fn diff_chunks_spec(gs: Seq<Seq<(LineChangeKind, Seq<char>)>>) -> Seq<(Seq<char>, Seq<char>)>
    decreases gs.len(),
{
    if gs.len() == 0 {
        Seq::empty()
    } else if gs.len() == 1 {
        group_chunks(gs[0])
    } else {
        diff_chunks_spec(gs.drop_last()) + seq![separator_chunk()] + group_chunks(gs.last())
    }
}

/// The views of diff chunks.
pub open spec fn chunk_views(v: Seq<DiffChunk>) -> Seq<(Seq<char>, Seq<char>)> {
    v.map_values(|c: DiffChunk| (c.tag@, c.text@))
}

fn tag_of(k: LineChangeKind) -> (r: String)
    ensures
        r@ == kind_tag(k),
{
    match k {
        LineChangeKind::Delete => string_of(&['D', 'e', 'l', 'e', 't', 'e']),
        LineChangeKind::Insert => string_of(&['I', 'n', 's', 'e', 'r', 't']),
        LineChangeKind::Equal => string_of(&['E', 'q', 'u', 'a', 'l']),
    }
}

/// Turns groups of line changes into the chunks shown (see [`diff_chunks_spec`]).
pub fn diff_chunks(groups: &Vec<Vec<LineChange>>) -> (r: Vec<DiffChunk>)
    ensures
        chunk_views(r@) == diff_chunks_spec(group_views(groups@)),
{
    let ghost gv = group_views(groups@);
    let mut out: Vec<DiffChunk> = Vec::new();
    let mut i: usize = 0;
    while i < groups.len()
        invariant
            i <= groups@.len(),
            gv == group_views(groups@),
            chunk_views(out@) == diff_chunks_spec(gv.take(i as int)),
        decreases groups.len() - i,
    {
        proof {
            assert(gv.take(i + 1).drop_last() =~= gv.take(i as int));
            assert(gv.take(i + 1).last() == change_views(groups@[i as int]@));
        }
        let ghost start = chunk_views(out@);
        if i > 0 {
            out.push(DiffChunk { tag: string_of(&['S', 'e', 'p', 'a', 'r', 'a', 't', 'o', 'r']), text: string_of(&['.', '.', '.']) });
            proof {
                assert(chunk_views(out@) =~= start + seq![separator_chunk()]);
            }
        } else {
            assert(chunk_views(out@) =~= start);
        }
        let ghost mid = chunk_views(out@);
        let g = &groups[i];
        let mut j: usize = 0;
        while j < g.len()
            invariant
                j <= g@.len(),
                chunk_views(out@) == mid + group_chunks(change_views(g@).take(j as int)),
            decreases g.len() - j,
        {
            let ghost before = chunk_views(out@);
            out.push(DiffChunk { tag: tag_of(g[j].kind), text: g[j].text.clone() });
            proof {
                assert(change_views(g@).take(j + 1) =~= change_views(g@).take(j as int).push((g@[j as int].kind, g@[j as int].text@)));
                assert(group_chunks(change_views(g@).take(j + 1)) =~= group_chunks(change_views(g@).take(j as int)).push((kind_tag(g@[j as int].kind), g@[j as int].text@)));
                assert(chunk_views(out@) =~= before.push((kind_tag(g@[j as int].kind), g@[j as int].text@)));
            }
            j += 1;
        }
        proof {
            assert(change_views(g@).take(g@.len() as int) =~= change_views(g@));
            if i == 0 {
                assert(gv.take(1) =~= seq![change_views(g@)]);
                assert(start =~= Seq::<(Seq<char>, Seq<char>)>::empty());
                assert(chunk_views(out@) =~= group_chunks(change_views(g@)));
            }
        }
        i += 1;
    }
    assert(gv.take(groups@.len() as int) =~= gv);
    out
}

/// Compares a snapshot's body (old) with the current body (new), line by line, in the
/// chunks shown to the user.
pub fn compare_bodies(old_body: &str, new_body: &str) -> (r: Vec<DiffChunk>)
    ensures
        chunk_views(r@) == diff_chunks_spec(grouped_line_changes(old_body@, new_body@)),
{
    let groups = line_change_groups(old_body, new_body);
    diff_chunks(&groups)
}

} // verus!
