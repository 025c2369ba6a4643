//! Synchronisation conflicts: the local note stays, the remote version is archived as
//! `.noda/conflicts/<id>_<seconds>.md`, and the archived copies are listed newest first.
//! Writing and reading the archive files is the caller's.
use vstd::prelude::*;
use crate::models::{Note, NoteId};
use crate::time::{Timestamp, nanos_of, is_before};
use crate::text::{chars_of, string_of, extend_chars, pieces};
use crate::crypto::decimal_text;
use crate::diagnostics::{conflict_remnant_name, conflict_remnant_spec};
use crate::vault::{path_relative_to, relative_to};

verus! {

/// A conflict: the note, its path, its local title, the archived remote copy (relative
/// to the vault) and when the conflict was found.
#[derive(Debug)]
pub struct ConflictEntry {
    pub note_id: NoteId,
    pub relative_path: String,
    pub local_title: String,
    pub archived_path: String,
    pub detected_at: Timestamp,
}

/// The decimal text of a signed number.
pub open spec fn signed_decimal(v: int) -> Seq<char> {
    if v < 0 { seq!['-'] + decimal_text((-v) as nat) } else { decimal_text(v as nat) }
}

fn decimal_u64(n: u64) -> (r: Vec<char>)
    ensures
        r@ == decimal_text(n as nat),
    decreases n,
{
    if n < 10 {
        let b: u8 = n as u8;
        vec![((48u8 + b) as u8) as char]
    } else {
        let mut r = decimal_u64(n / 10);
        let b: u8 = (n % 10) as u8;
        r.push(((48u8 + b) as u8) as char);
        r
    }
}

/// The decimal text of a signed number (`i64`'s `Display`).
pub fn signed_text(v: i64) -> (r: Vec<char>)
    ensures
        r@ == signed_decimal(v as int),
{
    if v < 0 {
        let m: u64 = if v == i64::MIN { 0x8000_0000_0000_0000u64 } else { (-v) as u64 };
        let mut r = vec!['-'];
        let d = decimal_u64(m);
        extend_chars(&mut r, d.as_slice());
        assert(r@ =~= seq!['-'] + decimal_text((-(v as int)) as nat));
        r
    } else {
        decimal_u64(v as u64)
    }
}

/// The archive file name of a conflict of note `id` found at `secs`: `<id>_<secs>.md`.
pub open spec fn archive_name_spec(id: Seq<char>, secs: i64) -> Seq<char> {
    id + seq!['_'] + signed_decimal(secs as int) + seq!['.', 'm', 'd']
}

/// `.noda/conflicts/`
pub open spec fn conflicts_prefix() -> Seq<char> {
    seq!['.', 'n', 'o', 'd', 'a', '/', 'c', 'o', 'n', 'f', 'l', 'i', 'c', 't', 's', '/']
}

/// The archive file name of a conflict of note `id` found at `secs` seconds.
pub fn archive_file_name(id: &str, secs: i64) -> (r: String)
    ensures
        r@ == archive_name_spec(id@, secs),
{
    let mut v = chars_of(id);
    v.push('_');
    let d = signed_text(secs);
    extend_chars(&mut v, d.as_slice());
    extend_chars(&mut v, &['.', 'm', 'd']);
    assert(v@ =~= archive_name_spec(id@, secs));
    string_of(&v)
}

fn archived_path_of(name: &str) -> (r: String)
    ensures
        r@ == conflicts_prefix() + name@,
{
    let mut v: Vec<char> = Vec::new();
    extend_chars(&mut v, &['.', 'n', 'o', 'd', 'a', '/', 'c', 'o', 'n', 'f', 'l', 'i', 'c', 't', 's', '/']);
    let n = chars_of(name);
    extend_chars(&mut v, n.as_slice());
    assert(v@ =~= conflicts_prefix() + name@);
    string_of(&v)
}

/// The conflict of `local` whose remote version is archived now: the archive's file
/// name (`<id>_<secs>.md`, `secs` being now in whole seconds) and the entry recording it.
pub fn new_conflict(local: &Note, secs: i64, now: Timestamp) -> (r: (String, ConflictEntry))
    ensures
        r.0@ == archive_name_spec(local.id.0@, secs),
        r.1.note_id.0@ == local.id.0@,
        r.1.relative_path@ == local.file_path@,
        r.1.local_title@ == local.title@,
        r.1.archived_path@ == conflicts_prefix() + archive_name_spec(local.id.0@, secs),
        r.1.detected_at == now,
{
    let name = archive_file_name(local.id.0.as_str(), secs);
    let archived = archived_path_of(name.as_str());
    let entry = ConflictEntry {
        note_id: local.id.copy(),
        relative_path: local.file_path.clone(),
        local_title: local.title.clone(),
        archived_path: archived,
        detected_at: now,
    };
    (name, entry)
}

/// Whether chrono can represent the instant `secs` whole seconds after the epoch
/// (`DateTime::<Utc>::from_timestamp(secs, 0)` is `Some`): chrono's dates run from
/// `NaiveDate::MIN`, the first day of the year -262143, to `NaiveDate::MAX`, the last
/// day of 262142, so the seconds run from -8 334 601 228 800 (that first day's midnight)
/// to 8 210 266 876 799 (the last second of that last day).
pub open spec fn utc_secs_representable(secs: i64) -> bool {
    -8_334_601_228_800 <= secs && secs <= 8_210_266_876_799
}

/// `chrono::DateTime::<Utc>::from_timestamp(secs, 0)`. Claimed: it gives an instant
/// exactly within chrono's date range (see [`utc_secs_representable`]), and that instant
/// is `secs` seconds and no nanoseconds (chrono documents that it round-trips with
/// `timestamp`).
#[verifier::external_body]
fn instant_from_secs(secs: i64) -> (r: Option<Timestamp>)
    ensures
        (r is Some) == utc_secs_representable(secs),
        r matches Some(t) ==> t.secs == secs && t.nanos == 0,
{
    match chrono::DateTime::from_timestamp(secs, 0) {
        Some(d) => Some(Timestamp { secs: d.timestamp(), nanos: d.timestamp_subsec_nanos() }),
        None => None,
    }
}

/// `Conflict Note`
pub open spec fn default_conflict_title() -> Seq<char> {
    seq!['C', 'o', 'n', 'f', 'l', 'i', 'c', 't', ' ', 'N', 'o', 't', 'e']
}

/// The entry of an archived conflict file found in `.noda/conflicts/`, from its file
/// name and stem: the stem must split at `_` into at least two pieces, the first a
/// ULID. The time is the second piece in seconds (0 where it does not parse; now where
/// chrono cannot represent it). The note's path is where its file was found (relative
/// to the vault), else `<first piece>.md`; the title is the archived file's frontmatter
/// title, else `Conflict Note`.
pub open spec fn listed_conflict_ok(stem: Seq<char>) -> bool {
    pieces(stem, '_').len() >= 2 && conflict_remnant_spec(stem) is Some
}

/// Builds the entry of an archived conflict file (see [`listed_conflict_ok`]); `None`
/// for a file whose name is not a conflict's.
pub fn listed_conflict(
    file_name: &str,
    stem: &str,
    vault_path: &str,
    found_note_path: Option<String>,
    front_title: Option<String>,
    now: Timestamp,
) -> (r: Option<ConflictEntry>)
    ensures
        r is Some == listed_conflict_ok(stem@),
        r matches Some(e) ==> {
            let p = pieces(stem@, '_');
            let parsed = conflict_remnant_spec(stem@)->0;
            let secs: i64 = match parsed.1 { Some(s) => s, None => 0 };
            &&& e.note_id.0@ == parsed.0
            &&& e.archived_path@ == conflicts_prefix() + file_name@
            &&& e.relative_path@ == match found_note_path {
                Some(f) => path_relative_to(f@, vault_path@),
                None => p[0] + seq!['.', 'm', 'd'],
            }
            &&& e.local_title@ == match front_title { Some(t) => t@, None => default_conflict_title() }
            &&& e.detected_at == if utc_secs_representable(secs) { Timestamp { secs: secs, nanos: 0 } } else { now }
        },
{
    let sc = chars_of(stem);
    let parts = crate::text::split_on(sc.as_slice(), '_');
    let ghost pv = parts@.map_values(|q: Vec<char>| q@);
    if parts.len() < 2 {
        return None;
    }
    let (id, ts) = match conflict_remnant_name(stem) {
        Some(x) => x,
        None => return None,
    };
    let secs: i64 = match ts {
        Some(s) => s,
        None => 0,
    };
    let detected_at = match instant_from_secs(secs) {
        Some(t) => t,
        None => now,
    };
    let relative_path = match found_note_path {
        Some(f) => relative_to(f.as_str(), vault_path),
        None => {
            let mut v = parts[0].clone();
            assert(pv[0] == parts@[0]@);
            extend_chars(&mut v, &['.', 'm', 'd']);
            string_of(&v)
        },
    };
    let local_title = match front_title {
        Some(t) => t,
        None => string_of(&['C', 'o', 'n', 'f', 'l', 'i', 'c', 't', ' ', 'N', 'o', 't', 'e']),
    };
    Some(ConflictEntry {
        note_id: NoteId(id),
        relative_path,
        local_title,
        archived_path: archived_path_of(file_name),
        detected_at,
    })
}

/// The time of a conflict file of note `id` by its name: a `.md` file named
/// `<id>_...`; the time is the second `_`-piece of the stem in seconds (0 where there is
/// none or it does not parse). `None` for files of other notes.
pub open spec fn conflict_time_spec(file_name: Seq<char>, stem: Seq<char>, id: Seq<char>) -> Option<i64> {
    if crate::text::has_prefix(file_name, id + seq!['_']) && crate::text::has_suffix(file_name, seq!['.', 'm', 'd']) {
        let p = pieces(stem, '_');
        Some(if p.len() >= 2 {
            match crate::diagnostics::parse_i64_spec(p[1]) { Some(v) => v, None => 0 }
        } else {
            0
        })
    } else {
        None
    }
}

/// The time of a conflict file of note `id` (see [`conflict_time_spec`]).
pub fn conflict_time(file_name: &str, stem: &str, id: &str) -> (r: Option<i64>)
    ensures
        r == conflict_time_spec(file_name@, stem@, id@),
{
    let f = chars_of(file_name);
    let mut pre = chars_of(id);
    pre.push('_');
    assert(pre@ =~= id@ + seq!['_']);
    if !crate::text::starts_with(f.as_slice(), pre.as_slice()) {
        return None;
    }
    if !crate::scan::ends_with_chars(f.as_slice(), &['.', 'm', 'd']) {
        assert(['.', 'm', 'd']@ =~= seq!['.', 'm', 'd']);
        return None;
    }
    assert(['.', 'm', 'd']@ =~= seq!['.', 'm', 'd']);
    let sc = chars_of(stem);
    let parts = crate::text::split_on(sc.as_slice(), '_');
    let ghost pv = parts@.map_values(|q: Vec<char>| q@);
    if parts.len() >= 2 {
        assert(pv[1] == parts@[1]@);
        match crate::diagnostics::parse_i64(parts[1].as_slice()) {
            Some(v) => Some(v),
            None => Some(0),
        }
    } else {
        Some(0)
    }
}

/// The conflict a resolution takes: the newest one (the first of those with the
/// greatest time), if there is any.
pub fn latest_conflict(times: &Vec<i64>) -> (r: Option<usize>)
    ensures
        times@.len() == 0 ==> r is None,
        r matches Some(k) ==> k < times@.len()
            && (forall|j: int| 0 <= j < times@.len() ==> times@[j] <= times@[k as int])
            && (forall|j: int| 0 <= j < k ==> times@[j] < times@[k as int]),
        times@.len() > 0 ==> r is Some,
{
    if times.len() == 0 {
        return None;
    }
    let mut best: usize = 0;
    let mut i: usize = 1;
    while i < times.len()
        invariant
            1 <= i <= times@.len(),
            best < i,
            forall|j: int| 0 <= j < i ==> times@[j] <= times@[best as int],
            forall|j: int| 0 <= j < best ==> times@[j] < times@[best as int],
        decreases times.len() - i,
    {
        if times[i] > times[best] {
            best = i;
        }
        i += 1;
    }
    Some(best)
}

/// `x` inserted into a list sorted newest first: after every entry not older.
pub open spec fn insert_by_detection(sorted: Seq<ConflictEntry>, x: ConflictEntry) -> Seq<ConflictEntry>
    decreases sorted.len(),
{
    if sorted.len() == 0 || nanos_of(sorted.last().detected_at) >= nanos_of(x.detected_at) {
        sorted.push(x)
    } else {
        insert_by_detection(sorted.drop_last(), x).push(sorted.last())
    }
}

/// The conflicts sorted newest first, stably.
pub open spec fn sort_by_detection(v: Seq<ConflictEntry>) -> Seq<ConflictEntry>
    decreases v.len(),
{
    if v.len() == 0 {
        Seq::empty()
    } else {
        insert_by_detection(sort_by_detection(v.drop_last()), v.last())
    }
}

/// No conflict was found earlier than one after it.
pub open spec fn detected_newest_first(v: Seq<ConflictEntry>) -> bool {
    forall|i: int, j: int| 0 <= i < j < v.len() ==> nanos_of((#[trigger] v[i]).detected_at) >= nanos_of((#[trigger] v[j]).detected_at)
}

fn insert_detected(v: &mut Vec<ConflictEntry>, x: ConflictEntry)
    ensures
        final(v)@ == insert_by_detection(old(v)@, x),
    decreases old(v)@.len(),
{
    if v.len() == 0 || !is_before(v[v.len() - 1].detected_at, x.detected_at) {
        v.push(x);
        return;
    }
    let last = v.pop().unwrap();
    insert_detected(v, x);
    v.push(last);
}

/// Orders conflicts newest first, keeping the listed order among equal times.
pub fn order_conflicts(items: Vec<ConflictEntry>) -> (r: Vec<ConflictEntry>)
    ensures
        r@ == sort_by_detection(items@),
        detected_newest_first(r@),
        r@.to_multiset() == items@.to_multiset(),
{
    let ghost orig = items@;
    let n: usize = items.len();
    let mut rest = items;
    let mut out: Vec<ConflictEntry> = Vec::new();
    let mut k: usize = 0;
    while rest.len() > 0
        invariant
            k <= n,
            orig.len() == n,
            rest@ == orig.skip(k as int),
            rest@.len() == n - k,
            out@ == sort_by_detection(orig.take(k as int)),
        decreases rest.len(),
    {
        let x = rest.remove(0);
        proof {
            assert(orig.take(k + 1).drop_last() =~= orig.take(k as int));
            assert(orig.take(k + 1).last() == x);
            assert(rest@ =~= orig.skip(k + 1));
        }
        insert_detected(&mut out, x);
        k += 1;
    }
    assert(orig.take(k as int) =~= orig);
    proof {
        law_conflict_order(orig);
    }
    out
}

proof fn lemma_insert_detection(sorted: Seq<ConflictEntry>, x: ConflictEntry)
    requires
        detected_newest_first(sorted),
    ensures
        detected_newest_first(insert_by_detection(sorted, x)),
        insert_by_detection(sorted, x).to_multiset() == sorted.to_multiset().insert(x),
        forall|k: int| 0 <= k < insert_by_detection(sorted, x).len() ==>
            (#[trigger] insert_by_detection(sorted, x)[k]) == x || sorted.contains(insert_by_detection(sorted, x)[k]),
    decreases sorted.len(),
{
    broadcast use vstd::seq_lib::group_to_multiset_ensures;
    let r = insert_by_detection(sorted, x);
    if sorted.len() == 0 || nanos_of(sorted.last().detected_at) >= nanos_of(x.detected_at) {
        assert forall|k: int| 0 <= k < r.len() implies (#[trigger] r[k]) == x || sorted.contains(r[k]) by {
            if k < sorted.len() {
                assert(r[k] == sorted[k]);
            }
        }
    } else {
        let init = sorted.drop_last();
        let last = sorted.last();
        assert(detected_newest_first(init));
        lemma_insert_detection(init, x);
        let mid = insert_by_detection(init, x);
        assert(r == mid.push(last));
        assert forall|i: int, j: int| 0 <= i < j < r.len() implies nanos_of((#[trigger] r[i]).detected_at) >= nanos_of((#[trigger] r[j]).detected_at) by {
            if j == r.len() - 1 {
                assert(r[j] == last);
                assert(r[i] == mid[i]);
                if mid[i] != x {
                    let k = choose|k: int| 0 <= k < init.len() && init[k] == mid[i];
                    assert(init[k] == sorted[k]);
                    assert(nanos_of(sorted[k].detected_at) >= nanos_of(sorted[sorted.len() - 1].detected_at));
                }
            } else {
                assert(r[i] == mid[i]);
                assert(r[j] == mid[j]);
            }
        }
        assert(sorted =~= init.push(last));
        assert(r.to_multiset() =~= sorted.to_multiset().insert(x));
        assert forall|k: int| 0 <= k < r.len() implies (#[trigger] r[k]) == x || sorted.contains(r[k]) by {
            if k == r.len() - 1 {
                assert(sorted[sorted.len() - 1] == r[k]);
            } else {
                assert(r[k] == mid[k]);
                if mid[k] != x {
                    let q = choose|q: int| 0 <= q < init.len() && init[q] == mid[k];
                    assert(sorted[q] == init[q]);
                }
            }
        }
    }
}

/// Conflicts are listed newest first, and the listing holds exactly the conflicts found.
pub proof fn law_conflict_order(items: Seq<ConflictEntry>)
    ensures
        detected_newest_first(sort_by_detection(items)),
        sort_by_detection(items).to_multiset() == items.to_multiset(),
    decreases items.len(),
{
    broadcast use vstd::seq_lib::group_to_multiset_ensures;
    if items.len() > 0 {
        law_conflict_order(items.drop_last());
        lemma_insert_detection(sort_by_detection(items.drop_last()), items.last());
        assert(items =~= items.drop_last().push(items.last()));
    } else {
        assert(items =~= Seq::<ConflictEntry>::empty());
    }
}

} // verus!
