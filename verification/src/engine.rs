//! Decisions of the synchronisation cycle: which peer devices changed, what a peer's
//! manifest asks of this vault, which local changes are pushed, and how outcomes are
//! recorded. The cycle itself (network, disk, database) runs these decisions.
use vstd::prelude::*;
use crate::text::{has_prefix, has_suffix, chars_of, string_of, starts_with, chars_eq, extend_chars, contains, contains_seq};
use crate::paths::{relative_path_spec, get_relative_path, head_to};
use crate::time::{Timestamp, last_modified_instant, parse_last_modified, rfc3339_text, format_rfc3339, same_instant};
use crate::models::{
    RemoteEntry, RemoteEntryView, RemoteFileMetadata, RemoteState, DeviceMetadata, DeviceState, opt_view,
    copy_opt, str_eq, lookup_device, device_names, strings_view,
};
use crate::delta::{SyncAction, SyncActionView, action_path, actions_view};

verus! {

/// The last `/`-separated segment of a path (its file name).
pub open spec fn file_name_of(p: Seq<char>) -> Seq<char>
    decreases p.len(),
{
    if p.len() == 0 || p.last() == '/' {
        Seq::empty()
    } else {
        file_name_of(p.drop_last()).push(p.last())
    }
}

/// The last `/`-separated segment of a path.
pub fn file_name(p: &[char]) -> (r: Vec<char>)
    ensures
        r@ == file_name_of(p@),
{
    let mut start: usize = p.len();
    assert(p@.take(start as int) =~= p@);
    assert(p@.skip(start as int) =~= Seq::<char>::empty());
    while start > 0 && p[start - 1] != '/'
        invariant
            start <= p.len(),
            file_name_of(p@) == file_name_of(p@.take(start as int)) + p@.skip(start as int),
        decreases start,
    {
        proof {
            let t = p@.take(start as int);
            assert(t.drop_last() =~= p@.take(start - 1));
            assert(p@.skip(start - 1) =~= seq![p@[start - 1]] + p@.skip(start as int));
            assert(file_name_of(t) =~= file_name_of(p@.take(start - 1)).push(p@[start - 1]));
        }
        start -= 1;
    }
    proof {
        let t = p@.take(start as int);
        if start > 0 {
            assert(t.last() == '/');
        }
        assert(file_name_of(t) =~= Seq::<char>::empty());
    }
    crate::paths::tail_from(p, start)
}

/// `".sync"`.
pub open spec fn sync_suffix() -> Seq<char> {
    seq!['.', 's', 'y', 'n', 'c']
}

/// The device whose `.sync` signature a remote entry is: the entry's file name without
/// `.sync`; `None` for collections and other files.
pub open spec fn signature_device(e: RemoteEntryView) -> Option<Seq<char>> {
    if e.is_collection {
        None
    } else {
        let f = file_name_of(relative_path_spec(e.href, Seq::empty()));
        if has_suffix(f, sync_suffix()) {
            Some(f.take(f.len() - 5))
        } else {
            None
        }
    }
}

/// The other device a remote entry is the signature of (`None` for this device's own).
pub open spec fn peer_device(e: RemoteEntryView, own: Seq<char>) -> Option<Seq<char>> {
    match signature_device(e) {
        Some(n) => if n == own { None } else { Some(n) },
        None => None,
    }
}

/// The signature still matches the recorded one: the same ETag, or a last-modified text
/// that is the recorded instant (as RFC 3339 text, or once parsed).
pub open spec fn signature_matches(etag: Option<Seq<char>>, lm: Option<Seq<char>>, cached: DeviceMetadata) -> bool {
    let etag_matches = match etag {
        Some(a) => match opt_view(cached.last_known_etag) {
            Some(b) => a == b,
            None => false,
        },
        None => false,
    };
    let lm_matches = match lm {
        Some(a) => match cached.last_known_modified {
            Some(t) => a == rfc3339_text(t.secs, t.nanos) || last_modified_instant(a) == Some(t),
            None => false,
        },
        None => false,
    };
    etag_matches || lm_matches
}

/// A device's signature counts as changed unless it is recorded and still matches.
pub open spec fn signature_changed(e: RemoteEntryView, cached: Option<DeviceMetadata>) -> bool {
    match cached {
        Some(c) => !signature_matches(e.etag, e.last_modified, c),
        None => true,
    }
}

/// `true` when the device's signature entry differs from what was recorded of it
/// (a device never seen before counts as changed).
pub fn device_signature_changed(entry: &RemoteEntry, cached: Option<&DeviceMetadata>) -> (r: bool)
    ensures
        r == signature_changed(entry@, match cached { Some(c) => Some(*c), None => None }),
{
    match cached {
        None => true,
        Some(c) => {
            let etag_matches = match (&entry.etag, &c.last_known_etag) {
                (Some(e1), Some(e2)) => str_eq(e1.as_str(), e2.as_str()),
                _ => false,
            };
            let lm_matches = match (&entry.last_modified, c.last_known_modified) {
                (Some(lm1), Some(lm2)) => {
                    let text = format_rfc3339(lm2);
                    if str_eq(lm1.as_str(), text.as_str()) {
                        true
                    } else {
                        match parse_last_modified(lm1.as_str()) {
                            Some(dt1) => same_instant(dt1, lm2),
                            None => false,
                        }
                    }
                },
                _ => false,
            };
            !(etag_matches || lm_matches)
        },
    }
}

/// The device a remote entry is the signature of, if it is one.
pub fn signature_device_of(entry: &RemoteEntry) -> (r: Option<String>)
    ensures
        match r {
            Some(n) => signature_device(entry@) == Some(n@),
            None => signature_device(entry@) is None,
        },
{
    if entry.is_collection {
        return None;
    }
    let rel = get_relative_path(entry.href.as_str(), "");
    proof {
        assert(""@ =~= Seq::<char>::empty()) by {
            reveal_strlit("");
        }
    }
    let rc = chars_of(rel.as_str());
    let f = file_name(&rc);
    let suffix = ['.', 's', 'y', 'n', 'c'];
    if f.len() >= 5 {
        let tail = crate::paths::tail_from(&f, f.len() - 5);
        if chars_eq(&tail, &suffix) {
            let name = head_to(&f, f.len() - 5);
            assert(sync_suffix() =~= suffix@);
            return Some(string_of(&name));
        }
        assert(!has_suffix(f@, sync_suffix())) by {
            assert(sync_suffix() =~= suffix@);
        }
    }
    None
}

/// A peer device whose signature changed, with its signature entry.
#[derive(Debug)]
pub struct ChangedDevice {
    pub name: String,
    pub entry: RemoteEntry,
}

/// The peer devices (in listing order) whose signature changed since it was recorded.
pub open spec fn changed_peers(entries: Seq<RemoteEntryView>, own: Seq<char>, devices: Seq<DeviceState>) -> Seq<(Seq<char>, RemoteEntryView)>
    decreases entries.len(),
{
    if entries.len() == 0 {
        Seq::empty()
    } else {
        let before = changed_peers(entries.drop_last(), own, devices);
        let e = entries.last();
        match peer_device(e, own) {
            Some(n) => if signature_changed(e, lookup_device(devices, n)) {
                before.push((n, e))
            } else {
                before
            },
            None => before,
        }
    }
}

/// `true` when some entry of the listing is the signature of device `name`.
pub open spec fn device_listed(entries: Seq<RemoteEntryView>, own: Seq<char>, name: Seq<char>) -> bool {
    exists|i: int| 0 <= i < entries.len() && peer_device(#[trigger] entries[i], own) == Some(name)
}

/// The views of remote entries.
pub open spec fn entry_views(v: Seq<RemoteEntry>) -> Seq<RemoteEntryView> {
    v.map_values(|e: RemoteEntry| e@)
}

/// The views of changed devices.
pub open spec fn changed_views(v: Seq<ChangedDevice>) -> Seq<(Seq<char>, RemoteEntryView)> {
    v.map_values(|c: ChangedDevice| (c.name@, c.entry@))
}

/// The peer devices whose `.sync` signature in the listing `entries` changed since
/// `state` recorded it, in listing order; this device's own signature is skipped.
#[verifier::rlimit(40)]
pub fn changed_devices(entries: &Vec<RemoteEntry>, own: &str, state: &RemoteState) -> (r: Vec<ChangedDevice>)
    requires
        state.wf(),
    ensures
        changed_views(r@) == changed_peers(entry_views(entries@), own@, state.devices@),
{
    let ghost ev = entry_views(entries@);
    let mut out: Vec<ChangedDevice> = Vec::new();
    let mut i: usize = 0;
    while i < entries.len()
        invariant
            i <= entries.len(),
            ev == entry_views(entries@),
            state.wf(),
            changed_views(out@) == changed_peers(ev.take(i as int), own@, state.devices@),
        decreases entries.len() - i,
    {
        let e = &entries[i];
        proof {
            assert(ev.take(i + 1).drop_last() =~= ev.take(i as int));
            assert(ev.take(i + 1).last() == e@);
        }
        match signature_device_of(e) {
            Some(n) => {
                if !str_eq(n.as_str(), own) {
                    let cached = match state.find_device(n.as_str()) {
                        Some(k) => {
                            proof {
                                crate::models::lemma_device_at(state.devices@, k as int);
                            }
                            Some(&state.devices[k].meta)
                        },
                        None => {
                            proof {
                                crate::models::lemma_device_absent(state.devices@, n@);
                            }
                            None
                        },
                    };
                    if device_signature_changed(e, cached) {
                        let ghost before = out@;
                        out.push(ChangedDevice { name: n, entry: e.copy() });
                        proof {
                            assert(changed_views(out@) =~= changed_views(before).push((n@, e@)));
                        }
                    }
                }
            },
            None => {},
        }
        i += 1;
    }
    assert(ev.take(entries.len() as int) =~= ev);
    out
}


/// A device counts as stale when it is not this device and no signature of it is listed.
pub open spec fn stale_device(entries: Seq<RemoteEntryView>, own: Seq<char>, name: Seq<char>) -> bool {
    name != own && !device_listed(entries, own, name)
}

/// `true` when some entry of the listing is the signature of peer device `name`.
fn device_is_listed(entries: &Vec<RemoteEntry>, own: &str, name: &str) -> (r: bool)
    ensures
        r == device_listed(entry_views(entries@), own@, name@),
{
    let ghost ev = entry_views(entries@);
    let mut i: usize = 0;
    while i < entries.len()
        invariant
            i <= entries.len(),
            ev == entry_views(entries@),
            forall|j: int| 0 <= j < i ==> peer_device(#[trigger] ev[j], own@) != Some(name@),
        decreases entries.len() - i,
    {
        assert(ev[i as int] == entries@[i as int]@);
        match signature_device_of(&entries[i]) {
            Some(n) => {
                if str_eq(n.as_str(), name) && !str_eq(n.as_str(), own) {
                    assert(peer_device(ev[i as int], own@) == Some(name@));
                    return true;
                }
            },
            None => {},
        }
        i += 1;
    }
    false
}

/// A known device is listed among the known devices.
proof fn lemma_device_known(devices: Seq<DeviceState>, name: Seq<char>)
    requires
        lookup_device(devices, name) is Some,
    ensures
        exists|i: int| 0 <= i < devices.len() && (#[trigger] devices[i]).name@ == name,
    decreases devices.len(),
{
    if devices.last().name@ != name {
        lemma_device_known(devices.drop_last(), name);
        let i = choose|i: int| 0 <= i < devices.drop_last().len() && (#[trigger] devices.drop_last()[i]).name@ == name;
        assert(devices[i] == devices.drop_last()[i]);
    } else {
        assert(devices[devices.len() - 1].name@ == name);
    }
}

/// Forgets every known device other than this one whose signature is no longer listed,
/// and tells whether any was forgotten.
pub fn prune_stale_devices(state: &mut RemoteState, entries: &Vec<RemoteEntry>, own: &str) -> (pruned: bool)
    requires
        old(state).wf(),
    ensures
        final(state).wf(),
        final(state).files@ == old(state).files@,
        final(state).last_sync_time == old(state).last_sync_time,
        forall|q: Seq<char>| #[trigger] final(state).device_meta(q)
            == (if stale_device(entry_views(entries@), own@, q) { None } else { old(state).device_meta(q) }),
        pruned == exists|j: int| 0 <= j < old(state).devices@.len()
            && stale_device(entry_views(entries@), own@, (#[trigger] old(state).devices@[j]).name@),
{
    let ghost names = device_names(state.devices@);
    let ghost ev = entry_views(entries@);
    let mut list: Vec<String> = Vec::new();
    let mut k: usize = 0;
    while k < state.devices.len()
        invariant
            k <= state.devices@.len(),
            names == device_names(state.devices@),
            list@.len() == k,
            forall|j: int| 0 <= j < k ==> (#[trigger] list@[j])@ == names[j],
        decreases state.devices.len() - k,
    {
        list.push(state.devices[k].name.clone());
        k += 1;
    }
    let mut pruned = false;
    let mut i: usize = 0;
    while i < list.len()
        invariant
            i <= list@.len(),
            list@.len() == names.len(),
            names == device_names(old(state).devices@),
            forall|j: int| 0 <= j < list@.len() ==> (#[trigger] list@[j])@ == names[j],
            ev == entry_views(entries@),
            state.wf(),
            state.files@ == old(state).files@,
            state.last_sync_time == old(state).last_sync_time,
            forall|q: Seq<char>| #[trigger] state.device_meta(q)
                == (if (exists|j: int| 0 <= j < i && names[j] == q) && stale_device(ev, own@, q) { None } else { old(state).device_meta(q) }),
            pruned == exists|j: int| 0 <= j < i && stale_device(ev, own@, names[j]),
        decreases list.len() - i,
    {
        let name = &list[i];
        let stale = !str_eq(name.as_str(), own) && !device_is_listed(entries, own, name.as_str());
        let ghost before = *state;
        if stale {
            state.remove_device(name.as_str());
            pruned = true;
        }
        proof {
            assert forall|q: Seq<char>| #[trigger] state.device_meta(q)
                == (if (exists|j: int| 0 <= j < i + 1 && names[j] == q) && stale_device(ev, own@, q) { None } else { old(state).device_meta(q) }) by {
                if q == names[i as int] {
                    assert(names[i as int] == q);
                } else {
                    if exists|j: int| 0 <= j < i + 1 && names[j] == q {
                        let j = choose|j: int| 0 <= j < i + 1 && names[j] == q;
                        assert(j < i);
                    }
                }
            }
            if stale {
                assert(stale_device(ev, own@, names[i as int]));
            }
            if pruned {
                assert(exists|j: int| 0 <= j < i + 1 && stale_device(ev, own@, names[j]));
            } else {
                assert forall|j: int| 0 <= j < i + 1 implies !stale_device(ev, own@, names[j]) by {
                    if j == i {
                        assert(!stale);
                    }
                }
            }
        }
        i += 1;
    }
    proof {
        assert forall|q: Seq<char>| #[trigger] state.device_meta(q)
            == (if stale_device(ev, own@, q) { None } else { old(state).device_meta(q) }) by {
            if !(exists|j: int| 0 <= j < names.len() && names[j] == q) {
                if old(state).device_meta(q) is Some {
                    lemma_device_known(old(state).devices@, q);
                    let k = choose|k: int| 0 <= k < old(state).devices@.len() && (#[trigger] old(state).devices@[k]).name@ == q;
                    assert(names[k] == q);
                }
            }
        }
        if pruned {
            let j = choose|j: int| 0 <= j < i && stale_device(ev, own@, names[j]);
            assert(names[j] == old(state).devices@[j].name@);
        }
        if exists|j: int| 0 <= j < old(state).devices@.len() && stale_device(ev, own@, (#[trigger] old(state).devices@[j]).name@) {
            let j = choose|j: int| 0 <= j < old(state).devices@.len() && stale_device(ev, own@, (#[trigger] old(state).devices@[j]).name@);
            assert(names[j] == old(state).devices@[j].name@);
        }
    }
    pruned
}


/// `".noda/"`: the prefix of the vault's internal files.
pub open spec fn noda_dir_prefix() -> Seq<char> {
    seq!['.', 'n', 'o', 'd', 'a', '/']
}

/// Index of the last occurrence of `c` in `s`, or -1.
pub open spec fn last_index_of(s: Seq<char>, c: char) -> int
    decreases s.len(),
{
    if s.len() == 0 {
        -1
    } else if s.last() == c {
        s.len() - 1
    } else {
        last_index_of(s.drop_last(), c)
    }
}

proof fn lemma_last_index_bounds(s: Seq<char>, c: char)
    ensures
        -1 <= last_index_of(s, c) < s.len(),
        last_index_of(s, c) >= 0 ==> s[last_index_of(s, c)] == c,
        forall|j: int| last_index_of(s, c) < j < s.len() ==> s[j] != c,
    decreases s.len(),
{
    if s.len() > 0 && s.last() != c {
        lemma_last_index_bounds(s.drop_last(), c);
        assert forall|j: int| last_index_of(s, c) < j < s.len() implies s[j] != c by {
            if j < s.len() - 1 {
                assert(s[j] == s.drop_last()[j]);
            }
        }
    }
}

/// The stem of a file name: the part before its last `.`, or the whole name when it has
/// no `.` other than a leading one (as `Path::file_stem`).
pub open spec fn file_stem_of(name: Seq<char>) -> Seq<char> {
    let i = last_index_of(name, '.');
    if i <= 0 {
        name
    } else {
        name.take(i)
    }
}

/// The stem of a file name (see [`file_stem_of`]).
pub fn file_stem(name: &[char]) -> (r: Vec<char>)
    ensures
        r@ == file_stem_of(name@),
{
    let mut i: usize = name.len();
    assert(name@.take(i as int) =~= name@);
    while i > 0 && name[i - 1] != '.'
        invariant
            i <= name.len(),
            last_index_of(name@, '.') == last_index_of(name@.take(i as int), '.'),
        decreases i,
    {
        proof {
            assert(name@.take(i as int).drop_last() =~= name@.take(i - 1));
        }
        i -= 1;
    }
    proof {
        if i > 0 {
            assert(name@.take(i as int).last() == '.');
        } else {
            assert(name@.take(0).len() == 0);
        }
    }
    if i <= 1 {
        crate::paths::copy_chars_slice(name)
    } else {
        head_to(name, i - 1)
    }
}

/// The note a vault file belongs to, when a conflict on it can be resolved: files
/// outside `.noda/` whose stem is a ULID; the note's identifier is its canonical text.
pub open spec fn conflict_note_of(path: Seq<char>) -> Option<Seq<char>> {
    if has_prefix(path, noda_dir_prefix()) {
        None
    } else {
        crate::ulid::canonical_ulid(file_stem_of(file_name_of(path)))
    }
}

/// The note a vault file belongs to (see [`conflict_note_of`]).
pub fn conflict_note_id(path: &str) -> (r: Option<String>)
    ensures
        match r {
            Some(id) => conflict_note_of(path@) == Some(id@),
            None => conflict_note_of(path@) is None,
        },
{
    let p = chars_of(path);
    let prefix = ['.', 'n', 'o', 'd', 'a', '/'];
    assert(noda_dir_prefix() =~= prefix@);
    if starts_with(&p, &prefix) {
        return None;
    }
    let f = file_name(&p);
    let stem = file_stem(&f);
    let st = string_of(&stem);
    crate::ulid::parse_ulid(st.as_str())
}

/// ASCII lower case of a character.
pub open spec fn ascii_lower(c: char) -> char {
    if 'A' <= c && c <= 'Z' {
        ((c as int) + 32) as char
    } else {
        c
    }
}

/// `".ds_store"`.
pub open spec fn ds_store() -> Seq<char> {
    seq!['.', 'd', 's', '_', 's', 't', 'o', 'r', 'e']
}

/// Paths that a peer's file list is not acted on for: `.DS_Store` files (in any case)
/// and paths with a hidden component (`/.` anywhere). For these two patterns ASCII case
/// folding and Unicode lower-casing agree.
pub open spec fn peer_path_ignored(p: Seq<char>) -> bool {
    has_suffix(p.map_values(|c: char| ascii_lower(c)), ds_store()) || contains_seq(p, seq!['/', '.'])
}

/// `true` for paths that a peer's file list is not acted on for.
pub fn is_ignored_peer_path(p: &str) -> (r: bool)
    ensures
        r == peer_path_ignored(p@),
{
    let c = chars_of(p);
    let mut lower: Vec<char> = Vec::new();
    let mut i: usize = 0;
    while i < c.len()
        invariant
            i <= c.len(),
            lower@ == c@.take(i as int).map_values(|x: char| ascii_lower(x)),
        decreases c.len() - i,
    {
        let x = c[i];
        let l = if 'A' <= x && x <= 'Z' {
            let b: u8 = x as u8;
            ((b + 32) as u8) as char
        } else {
            x
        };
        lower.push(l);
        proof {
            assert(c@.take(i + 1).map_values(|x: char| ascii_lower(x)) =~= c@.take(i as int).map_values(|x: char| ascii_lower(x)).push(ascii_lower(x)));
        }
        i += 1;
    }
    assert(c@.take(c.len() as int) =~= c@);
    let suffix = ['.', 'd', 's', '_', 's', 't', 'o', 'r', 'e'];
    assert(ds_store() =~= suffix@);
    let ends = if lower.len() >= 9 {
        let tail = crate::paths::tail_from(&lower, lower.len() - 9);
        chars_eq(&tail, &suffix)
    } else {
        false
    };
    assert(seq!['/', '.'] =~= (['/', '.'])@);
    ends || contains(&c, &['/', '.'])
}


/// The paths a peer no longer lists: those of its previous list that its new manifest
/// lacks, leaving out ignored paths; in the previous list's order.
pub open spec fn deleted_paths_spec(previous: Seq<Seq<char>>, manifest: Seq<Seq<char>>) -> Seq<Seq<char>>
    decreases previous.len(),
{
    if previous.len() == 0 {
        Seq::empty()
    } else {
        let rest = deleted_paths_spec(previous.drop_last(), manifest);
        let p = previous.last();
        if !peer_path_ignored(p) && !manifest.contains(p) {
            rest.push(p)
        } else {
            rest
        }
    }
}

/// `true` when `v` holds a string equal to `s`.
fn holds_string(v: &Vec<String>, s: &str) -> (r: bool)
    ensures
        r == strings_view(v@).contains(s@),
{
    let mut i: usize = 0;
    while i < v.len()
        invariant
            i <= v.len(),
            forall|j: int| 0 <= j < i ==> (#[trigger] v@[j])@ != s@,
        decreases v.len() - i,
    {
        if str_eq(v[i].as_str(), s) {
            assert(strings_view(v@)[i as int] == s@);
            return true;
        }
        i += 1;
    }
    assert forall|j: int| 0 <= j < strings_view(v@).len() implies strings_view(v@)[j] != s@ by {
        assert(strings_view(v@)[j] == v@[j]@);
    }
    false
}

/// The paths a peer device no longer lists (see [`deleted_paths_spec`]).
pub fn deleted_peer_paths(previous: &Vec<String>, manifest: &Vec<String>) -> (r: Vec<String>)
    ensures
        strings_view(r@) == deleted_paths_spec(strings_view(previous@), strings_view(manifest@)),
{
    let ghost pv = strings_view(previous@);
    let mut out: Vec<String> = Vec::new();
    let mut i: usize = 0;
    while i < previous.len()
        invariant
            i <= previous.len(),
            pv == strings_view(previous@),
            strings_view(out@) == deleted_paths_spec(pv.take(i as int), strings_view(manifest@)),
        decreases previous.len() - i,
    {
        let p = &previous[i];
        proof {
            assert(pv.take(i + 1).drop_last() =~= pv.take(i as int));
            assert(pv.take(i + 1).last() == p@);
        }
        if !is_ignored_peer_path(p.as_str()) && !holds_string(manifest, p.as_str()) {
            let ghost before = out@;
            out.push(p.clone());
            proof {
                assert(strings_view(out@) =~= strings_view(before).push(p@));
            }
        }
        i += 1;
    }
    assert(pv.take(previous.len() as int) =~= pv);
    out
}

/// The paths of a list that are not ignored, in order.
pub open spec fn visible_paths_spec(paths: Seq<Seq<char>>) -> Seq<Seq<char>>
    decreases paths.len(),
{
    if paths.len() == 0 {
        Seq::empty()
    } else {
        let rest = visible_paths_spec(paths.drop_last());
        if peer_path_ignored(paths.last()) { rest } else { rest.push(paths.last()) }
    }
}

/// Leaves the ignored paths out of a peer's changed paths.
pub fn visible_peer_paths(paths: &Vec<String>) -> (r: Vec<String>)
    ensures
        strings_view(r@) == visible_paths_spec(strings_view(paths@)),
{
    let ghost pv = strings_view(paths@);
    let mut out: Vec<String> = Vec::new();
    let mut i: usize = 0;
    while i < paths.len()
        invariant
            i <= paths.len(),
            pv == strings_view(paths@),
            strings_view(out@) == visible_paths_spec(pv.take(i as int)),
        decreases paths.len() - i,
    {
        let p = &paths[i];
        proof {
            assert(pv.take(i + 1).drop_last() =~= pv.take(i as int));
            assert(pv.take(i + 1).last() == p@);
        }
        if !is_ignored_peer_path(p.as_str()) {
            let ghost before = out@;
            out.push(p.clone());
            proof {
                assert(strings_view(out@) =~= strings_view(before).push(p@));
            }
        }
        i += 1;
    }
    assert(pv.take(paths.len() as int) =~= pv);
    out
}

/// What a peer's manifest asks of one vault file.
#[derive(Debug)]
pub enum PeerDecision {
    /// Nothing to do.
    Skip,
    /// Carry out this action.
    Act(SyncAction),
    /// Both sides changed the note: resolve a conflict with the local note of this
    /// identifier (when it can be read) against this remote entry.
    ResolveConflict { note_id: String, remote_entry: RemoteEntry },
}

/// Abstract value of a peer decision.
pub enum PeerDecisionView {
    Skip,
    Act(SyncActionView),
    ResolveConflict(Seq<char>, RemoteEntryView),
}

impl View for PeerDecision {
    type V = PeerDecisionView;

    open spec fn view(&self) -> PeerDecisionView {
        match self {
            PeerDecision::Skip => PeerDecisionView::Skip,
            PeerDecision::Act(a) => PeerDecisionView::Act(a@),
            PeerDecision::ResolveConflict { note_id, remote_entry } => PeerDecisionView::ResolveConflict(note_id@, remote_entry@),
        }
    }
}

/// The local record says the file has unpushed local changes.
pub open spec fn locally_dirty(local: Option<RemoteFileMetadata>) -> bool {
    match local {
        Some(m) => m.is_dirty,
        None => false,
    }
}

/// The hash the local record holds (empty when there is no record).
pub open spec fn local_hash(local: Option<RemoteFileMetadata>) -> Seq<char> {
    match local {
        Some(m) => m.hash@,
        None => Seq::empty(),
    }
}

/// The remote entry that stands for a peer's file in the actions: the path as href,
/// a file, no last-modified time, the given size and ETag.
pub open spec fn peer_entry(path: Seq<char>, size: Option<u64>, etag: Option<Seq<char>>) -> RemoteEntryView {
    RemoteEntryView { href: path, is_collection: false, last_modified: None, size: size, etag: etag }
}

/// A dirty local file that the peer changed or deleted: a conflict on its note when it
/// has one, else nothing.
pub open spec fn conflict_or_skip(path: Seq<char>, entry: RemoteEntryView) -> PeerDecisionView {
    match conflict_note_of(path) {
        Some(id) => PeerDecisionView::ResolveConflict(id, entry),
        None => PeerDecisionView::Skip,
    }
}

/// What a peer's deletion of `path` asks: nothing when the file is gone here; a local
/// delete when it has no unpushed changes; else a conflict (remote size 0, no ETag).
pub open spec fn deletion_decision(path: Seq<char>, exists: bool, local: Option<RemoteFileMetadata>) -> PeerDecisionView {
    if !exists {
        PeerDecisionView::Skip
    } else if locally_dirty(local) {
        conflict_or_skip(path, peer_entry(path, Some(0u64), None))
    } else {
        PeerDecisionView::Act(SyncActionView::DeleteLocal(path))
    }
}

/// What a peer's change of `path` to content hash `new_hash` asks: a download when the
/// file is missing here or differs without unpushed changes; a conflict when it differs
/// and has unpushed changes; nothing when the hashes agree.
pub open spec fn change_decision(path: Seq<char>, exists: bool, local: Option<RemoteFileMetadata>, new_hash: Seq<char>) -> PeerDecisionView {
    let entry = peer_entry(path, None, Some(new_hash));
    if !exists {
        PeerDecisionView::Act(SyncActionView::Download(path, entry))
    } else if local_hash(local) == new_hash {
        PeerDecisionView::Skip
    } else if locally_dirty(local) {
        conflict_or_skip(path, entry)
    } else {
        PeerDecisionView::Act(SyncActionView::Download(path, entry))
    }
}

/// The conflict decision for a dirty file.
fn conflict_or_skip_exec(path: &str, entry: RemoteEntry) -> (r: PeerDecision)
    ensures
        r@ == conflict_or_skip(path@, entry@),
{
    match conflict_note_id(path) {
        Some(id) => PeerDecision::ResolveConflict { note_id: id, remote_entry: entry },
        None => PeerDecision::Skip,
    }
}

/// What a peer's deletion of `path` asks of this vault (see [`deletion_decision`]).
pub fn peer_deletion_decision(path: &str, exists: bool, local: Option<&RemoteFileMetadata>) -> (r: PeerDecision)
    ensures
        r@ == deletion_decision(path@, exists, match local { Some(m) => Some(*m), None => None }),
{
    if !exists {
        return PeerDecision::Skip;
    }
    let dirty = match local {
        Some(m) => m.is_dirty,
        None => false,
    };
    if dirty {
        let entry = RemoteEntry { href: path.to_string(), is_collection: false, last_modified: None, size: Some(0), etag: None };
        conflict_or_skip_exec(path, entry)
    } else {
        PeerDecision::Act(SyncAction::DeleteLocal { relative_path: path.to_string() })
    }
}

/// What a peer's change of `path` asks of this vault (see [`change_decision`]); a
/// missing hash counts as the empty one.
pub fn peer_change_decision(path: &str, exists: bool, local: Option<&RemoteFileMetadata>, new_hash: Option<&String>) -> (r: PeerDecision)
    ensures
        r@ == change_decision(path@, exists, match local { Some(m) => Some(*m), None => None },
            match new_hash { Some(h) => h@, None => Seq::empty() }),
{
    let nh: String = match new_hash {
        Some(h) => h.clone(),
        None => String::new(),
    };
    let entry = RemoteEntry { href: path.to_string(), is_collection: false, last_modified: None, size: None, etag: Some(nh.clone()) };
    if !exists {
        return PeerDecision::Act(SyncAction::Download { relative_path: path.to_string(), remote_entry: entry });
    }
    let same = match local {
        Some(m) => str_eq(m.hash.as_str(), nh.as_str()),
        None => str_eq(nh.as_str(), ""),
    };
    proof {
        assert(""@ =~= Seq::<char>::empty()) by {
            reveal_strlit("");
        }
    }
    if same {
        return PeerDecision::Skip;
    }
    let dirty = match local {
        Some(m) => m.is_dirty,
        None => false,
    };
    if dirty {
        conflict_or_skip_exec(path, entry)
    } else {
        PeerDecision::Act(SyncAction::Download { relative_path: path.to_string(), remote_entry: entry })
    }
}


/// A file with unpushed local changes, and whether it still exists in the vault.
#[derive(Debug)]
pub struct DirtyFile {
    pub path: String,
    pub exists: bool,
}

/// Local changes are held back when every dirty file is quarantined (has failed
/// before): then nothing is pushed this cycle.
pub open spec fn bypass_authorized(total_dirty: int, quarantined_dirty: int) -> bool {
    total_dirty > 0 && total_dirty == quarantined_dirty
}

/// `true` when some action is about `path`.
pub open spec fn has_action_for(actions: Seq<SyncActionView>, path: Seq<char>) -> bool {
    exists|i: int| 0 <= i < actions.len() && action_path(#[trigger] actions[i]) == path
}

/// The local actions for the dirty files, in order: an upload for an existing file, a
/// remote delete for a missing one; files that a peer's actions already cover are left
/// out.
pub open spec fn local_actions_spec(dirty: Seq<(Seq<char>, bool)>, remote: Seq<SyncActionView>) -> Seq<SyncActionView>
    decreases dirty.len(),
{
    if dirty.len() == 0 {
        Seq::empty()
    } else {
        let rest = local_actions_spec(dirty.drop_last(), remote);
        let (p, exists) = dirty.last();
        if has_action_for(remote, p) {
            rest
        } else if exists {
            rest.push(SyncActionView::Upload(p))
        } else {
            rest.push(SyncActionView::DeleteRemote(p))
        }
    }
}

/// The views of dirty files.
pub open spec fn dirty_views(v: Seq<DirtyFile>) -> Seq<(Seq<char>, bool)> {
    v.map_values(|d: DirtyFile| (d.path@, d.exists))
}

/// The path of an action.
pub fn action_relative_path(a: &SyncAction) -> (r: String)
    ensures
        r@ == action_path(a@),
{
    match a {
        SyncAction::Upload { relative_path } => relative_path.clone(),
        SyncAction::Download { relative_path, .. } => relative_path.clone(),
        SyncAction::DeleteRemote { relative_path } => relative_path.clone(),
        SyncAction::DeleteLocal { relative_path } => relative_path.clone(),
        SyncAction::Conflict { relative_path, .. } => relative_path.clone(),
    }
}

/// `true` when some action is about `path`.
fn covers_path(actions: &Vec<SyncAction>, path: &str) -> (r: bool)
    ensures
        r == has_action_for(actions_view(actions@), path@),
{
    let ghost av = actions_view(actions@);
    let mut i: usize = 0;
    while i < actions.len()
        invariant
            i <= actions.len(),
            av == actions_view(actions@),
            forall|j: int| 0 <= j < i ==> action_path(#[trigger] av[j]) != path@,
        decreases actions.len() - i,
    {
        let p = action_relative_path(&actions[i]);
        if str_eq(p.as_str(), path) {
            assert(action_path(av[i as int]) == path@);
            return true;
        }
        i += 1;
    }
    false
}

/// The local changes to push this cycle: none when there are no dirty files or all of
/// them are quarantined; else (see [`local_actions_spec`]) one action per dirty file
/// that is not quarantined, leaving out files that `remote_actions` already cover.
pub fn plan_local_actions(
    total_dirty: i64,
    quarantined_dirty: i64,
    dirty: &Vec<DirtyFile>,
    remote_actions: &Vec<SyncAction>,
) -> (r: Vec<SyncAction>)
    ensures
        actions_view(r@) == (if total_dirty > 0 && !bypass_authorized(total_dirty as int, quarantined_dirty as int) {
            local_actions_spec(dirty_views(dirty@), actions_view(remote_actions@))
        } else {
            Seq::empty()
        }),
{
    let mut out: Vec<SyncAction> = Vec::new();
    if !(total_dirty > 0 && total_dirty != quarantined_dirty) {
        assert(actions_view(out@) =~= Seq::<SyncActionView>::empty());
        return out;
    }
    let ghost dv = dirty_views(dirty@);
    let ghost rv = actions_view(remote_actions@);
    let mut i: usize = 0;
    while i < dirty.len()
        invariant
            i <= dirty.len(),
            dv == dirty_views(dirty@),
            rv == actions_view(remote_actions@),
            actions_view(out@) == local_actions_spec(dv.take(i as int), rv),
        decreases dirty.len() - i,
    {
        let d = &dirty[i];
        proof {
            assert(dv.take(i + 1).drop_last() =~= dv.take(i as int));
            assert(dv.take(i + 1).last() == (d.path@, d.exists));
        }
        if !covers_path(remote_actions, d.path.as_str()) {
            let ghost before = out@;
            let a = if d.exists {
                SyncAction::Upload { relative_path: d.path.clone() }
            } else {
                SyncAction::DeleteRemote { relative_path: d.path.clone() }
            };
            let ghost av = a@;
            out.push(a);
            proof {
                assert(actions_view(out@) =~= actions_view(before).push(av));
            }
        }
        i += 1;
    }
    assert(dv.take(dirty.len() as int) =~= dv);
    out
}

/// The name an action has in progress reports.
pub open spec fn action_label_spec(a: SyncActionView) -> Seq<char> {
    match a {
        SyncActionView::Upload(_) => seq!['u', 'p', 'l', 'o', 'a', 'd'],
        SyncActionView::Download(_, _) => seq!['d', 'o', 'w', 'n', 'l', 'o', 'a', 'd'],
        SyncActionView::DeleteRemote(_) => seq!['r', 'e', 'm', 'o', 't', 'e', '_', 'd', 'e', 'l', 'e', 't', 'e'],
        SyncActionView::DeleteLocal(_) => seq!['l', 'o', 'c', 'a', 'l', '_', 'd', 'e', 'l', 'e', 't', 'e'],
        SyncActionView::Conflict(_, _, _) => seq!['c', 'o', 'n', 'f', 'l', 'i', 'c', 't'],
    }
}

/// The name an action has in progress reports: `upload`, `download`, `remote_delete`,
/// `local_delete` or `conflict`.
pub fn action_label(a: &SyncAction) -> (r: String)
    ensures
        r@ == action_label_spec(a@),
{
    let v: Vec<char> = match a {
        SyncAction::Upload { .. } => vec!['u', 'p', 'l', 'o', 'a', 'd'],
        SyncAction::Download { .. } => vec!['d', 'o', 'w', 'n', 'l', 'o', 'a', 'd'],
        SyncAction::DeleteRemote { .. } => vec!['r', 'e', 'm', 'o', 't', 'e', '_', 'd', 'e', 'l', 'e', 't', 'e'],
        SyncAction::DeleteLocal { .. } => vec!['l', 'o', 'c', 'a', 'l', '_', 'd', 'e', 'l', 'e', 't', 'e'],
        SyncAction::Conflict { .. } => vec!['c', 'o', 'n', 'f', 'l', 'i', 'c', 't'],
    };
    string_of(&v)
}

/// Progress of one file in the synchronisation pipeline.
#[derive(Debug)]
pub struct SyncProgress {
    pub status: String,
    pub action: String,
    pub file_path: String,
    pub current_index: usize,
    pub total_count: usize,
}

/// The progress report for the `index`-th of `total` actions: status `Processing`, the
/// action's name and path.
pub fn progress_of(a: &SyncAction, index: usize, total: usize) -> (r: SyncProgress)
    ensures
        r.status@ == seq!['P', 'r', 'o', 'c', 'e', 's', 's', 'i', 'n', 'g'],
        r.action@ == action_label_spec(a@),
        r.file_path@ == action_path(a@),
        r.current_index == index,
        r.total_count == total,
{
    let st = vec!['P', 'r', 'o', 'c', 'e', 's', 's', 'i', 'n', 'g'];
    SyncProgress {
        status: string_of(&st),
        action: action_label(a),
        file_path: action_relative_path(a),
        current_index: index,
        total_count: total,
    }
}

/// What an action achieved, for the cycle's report.
#[derive(Debug, Clone, Copy, PartialEq, Eq)]
pub enum Outcome {
    Uploaded,
    Downloaded,
    DeletedLocal,
    DeletedRemote,
    ConflictArchived,
}

/// Statistics of a completed synchronisation cycle.
#[derive(Debug)]
pub struct SyncReport {
    pub uploads: u32,
    pub downloads: u32,
    pub deletes_local: u32,
    pub deletes_remote: u32,
    pub conflicts: u32,
    pub uploaded_files: Vec<String>,
    pub downloaded_files: Vec<String>,
    pub deleted_local_files: Vec<String>,
    pub deleted_remote_files: Vec<String>,
    pub conflict_files: Vec<String>,
}

impl SyncReport {
    /// Every counter equals the number of files listed for it.
    pub open spec fn consistent(&self) -> bool {
        &&& self.uploads == self.uploaded_files@.len()
        &&& self.downloads == self.downloaded_files@.len()
        &&& self.deletes_local == self.deleted_local_files@.len()
        &&& self.deletes_remote == self.deleted_remote_files@.len()
        &&& self.conflicts == self.conflict_files@.len()
    }

    /// The counter an outcome increments.
    pub open spec fn count_of(&self, o: Outcome) -> u32 {
        match o {
            Outcome::Uploaded => self.uploads,
            Outcome::Downloaded => self.downloads,
            Outcome::DeletedLocal => self.deletes_local,
            Outcome::DeletedRemote => self.deletes_remote,
            Outcome::ConflictArchived => self.conflicts,
        }
    }

    /// The file list an outcome extends.
    pub open spec fn files_of(&self, o: Outcome) -> Seq<Seq<char>> {
        match o {
            Outcome::Uploaded => strings_view(self.uploaded_files@),
            Outcome::Downloaded => strings_view(self.downloaded_files@),
            Outcome::DeletedLocal => strings_view(self.deleted_local_files@),
            Outcome::DeletedRemote => strings_view(self.deleted_remote_files@),
            Outcome::ConflictArchived => strings_view(self.conflict_files@),
        }
    }

    /// An empty report.
    pub fn new() -> (r: SyncReport)
        ensures
            r.consistent(),
            forall|o: Outcome| r.count_of(o) == 0 && r.files_of(o).len() == 0,
    {
        SyncReport {
            uploads: 0,
            downloads: 0,
            deletes_local: 0,
            deletes_remote: 0,
            conflicts: 0,
            uploaded_files: Vec::new(),
            downloaded_files: Vec::new(),
            deleted_local_files: Vec::new(),
            deleted_remote_files: Vec::new(),
            conflict_files: Vec::new(),
        }
    }

    /// Records that an action on `path` achieved `outcome`: its counter grows by one and
    /// the path is appended to its list; everything else is unchanged.
    pub fn record(&mut self, outcome: Outcome, path: String)
        requires
            old(self).count_of(outcome) < u32::MAX,
        ensures
            final(self).count_of(outcome) == old(self).count_of(outcome) + 1,
            final(self).files_of(outcome) == old(self).files_of(outcome).push(path@),
            forall|o: Outcome| o != outcome ==> final(self).count_of(o) == old(self).count_of(o)
                && final(self).files_of(o) == old(self).files_of(o),
            old(self).consistent() ==> final(self).consistent(),
    {
        match outcome {
            Outcome::Uploaded => {
                self.uploads = self.uploads + 1;
                self.uploaded_files.push(path);
                assert(strings_view(self.uploaded_files@) =~= strings_view(old(self).uploaded_files@).push(path@));
            },
            Outcome::Downloaded => {
                self.downloads = self.downloads + 1;
                self.downloaded_files.push(path);
                assert(strings_view(self.downloaded_files@) =~= strings_view(old(self).downloaded_files@).push(path@));
            },
            Outcome::DeletedLocal => {
                self.deletes_local = self.deletes_local + 1;
                self.deleted_local_files.push(path);
                assert(strings_view(self.deleted_local_files@) =~= strings_view(old(self).deleted_local_files@).push(path@));
            },
            Outcome::DeletedRemote => {
                self.deletes_remote = self.deletes_remote + 1;
                self.deleted_remote_files.push(path);
                assert(strings_view(self.deleted_remote_files@) =~= strings_view(old(self).deleted_remote_files@).push(path@));
            },
            Outcome::ConflictArchived => {
                self.conflicts = self.conflicts + 1;
                self.conflict_files.push(path);
                assert(strings_view(self.conflict_files@) =~= strings_view(old(self).conflict_files@).push(path@));
            },
        }
    }

    /// The cycle changed the remote side: something was uploaded, deleted remotely or
    /// resolved as a conflict.
    pub fn remote_affected(&self) -> (r: bool)
        ensures
            r == (self.uploads > 0 || self.deletes_remote > 0 || self.conflicts > 0),
    {
        self.uploads > 0 || self.deletes_remote > 0 || self.conflicts > 0
    }
}

/// The note a reported file is named after: the first `_`-separated piece of its file
/// stem, when that is a ULID (canonical form).
pub open spec fn report_note_of(file: Seq<char>) -> Option<Seq<char>> {
    crate::ulid::canonical_ulid(crate::text::pieces(file_stem_of(file_name_of(file)), '_')[0])
}

/// The identifier a reported file is named after (see [`report_note_of`]).
pub fn report_note_id(file: &str) -> (r: Option<String>)
    ensures
        opt_view(r) == report_note_of(file@),
{
    let c = chars_of(file);
    let f = file_name(&c);
    let stem = file_stem(&f);
    let parts = crate::text::split_on(&stem, '_');
    proof {
        assert(parts@.map_values(|p: Vec<char>| p@)[0] == parts@[0]@);
    }
    let first = string_of(&parts[0]);
    crate::ulid::parse_ulid(first.as_str())
}

/// The ULIDs among the `/`-separated segments of a reported path, in order (canonical
/// form): the notes a history or conflict path may belong to.
pub open spec fn report_path_ids(segs: Seq<Seq<char>>) -> Seq<Seq<char>>
    decreases segs.len(),
{
    if segs.len() == 0 {
        Seq::empty()
    } else {
        let rest = report_path_ids(segs.drop_last());
        match crate::ulid::canonical_ulid(segs.last()) {
            Some(id) => rest.push(id),
            None => rest,
        }
    }
}

/// The note identifiers in the segments of a reported path (see [`report_path_ids`]).
pub fn report_path_note_ids(file: &str) -> (r: Vec<String>)
    ensures
        strings_view(r@) == report_path_ids(crate::text::pieces(file@, '/')),
{
    let c = chars_of(file);
    let segs = crate::text::split_on(&c, '/');
    let ghost sv = segs@.map_values(|p: Vec<char>| p@);
    let mut out: Vec<String> = Vec::new();
    let mut i: usize = 0;
    while i < segs.len()
        invariant
            i <= segs.len(),
            sv == segs@.map_values(|p: Vec<char>| p@),
            strings_view(out@) == report_path_ids(sv.take(i as int)),
        decreases segs.len() - i,
    {
        proof {
            assert(sv.take(i + 1).drop_last() =~= sv.take(i as int));
            assert(sv.take(i + 1).last() == segs@[i as int]@);
        }
        let seg = string_of(&segs[i]);
        match crate::ulid::parse_ulid(seg.as_str()) {
            Some(id) => {
                let ghost before = out@;
                out.push(id);
                proof {
                    assert(strings_view(out@) =~= strings_view(before).push(out@[out@.len() - 1]@));
                }
            },
            None => {},
        }
        i += 1;
    }
    assert(sv.take(segs.len() as int) =~= sv);
    out
}

/// How a file of a sync report is shown: with the title of the note it is named after,
/// from the index, else from the trash (`title (Deleted: file)`), else from the file's
/// frontmatter; else with the title found for a note named in its path; else the file
/// alone. Titles are `title (file)`.
pub open spec fn report_label_spec(
    file: Seq<char>,
    db_title: Option<Seq<char>>,
    trash_title: Option<Seq<char>>,
    front_title: Option<Seq<char>>,
    path_title: Option<Seq<char>>,
) -> Seq<char> {
    let paren = |t: Seq<char>| t + seq![' ', '('] + file + seq![')'];
    match db_title {
        Some(t) => paren(t),
        None => match trash_title {
            Some(t) => t + seq![' ', '(', 'D', 'e', 'l', 'e', 't', 'e', 'd', ':', ' '] + file + seq![')'],
            None => match front_title {
                Some(t) => paren(t),
                None => match path_title {
                    Some(t) => paren(t),
                    None => file,
                },
            },
        },
    }
}

/// The label of a reported file (see [`report_label_spec`]). The titles are those found
/// for [`report_note_id`]'s note (`None` when there is none) and, for `path_title`, the
/// first found for the notes of [`report_path_note_ids`].
pub fn report_file_label(
    file: &str,
    db_title: Option<String>,
    trash_title: Option<String>,
    front_title: Option<String>,
    path_title: Option<String>,
) -> (r: String)
    ensures
        r@ == report_label_spec(file@, opt_view(db_title), opt_view(trash_title), opt_view(front_title), opt_view(path_title)),
{
    let f = chars_of(file);
    let (title, deleted) = match db_title {
        Some(t) => (Some(t), false),
        None => match trash_title {
            Some(t) => (Some(t), true),
            None => match front_title {
                Some(t) => (Some(t), false),
                None => (path_title, false),
            },
        },
    };
    match title {
        Some(t) => {
            let mut v = chars_of(t.as_str());
            if deleted {
                extend_chars(&mut v, &[' ', '(', 'D', 'e', 'l', 'e', 't', 'e', 'd', ':', ' ']);
            } else {
                extend_chars(&mut v, &[' ', '(']);
            }
            extend_chars(&mut v, &f);
            v.push(')');
            string_of(&v)
        },
        None => string_of(&f),
    }
}

/// The manifest and signature are published after a cycle that changed the remote side
/// and left no pending (non-quarantined) dirty file.
pub fn manifest_publish_due(remaining_dirty: i64, report: &SyncReport) -> (r: bool)
    ensures
        r == (remaining_dirty == 0 && (report.uploads > 0 || report.deletes_remote > 0 || report.conflicts > 0)),
{
    remaining_dirty == 0 && report.remote_affected()
}

/// A tracked file as the manifest query sees it.
#[derive(Debug)]
pub struct TrackedFile {
    pub path: String,
    pub hash: String,
    pub is_dirty: bool,
    pub retry_count: i64,
    pub exists: bool,
}

/// A (path, content hash) pair of a manifest.
#[derive(Debug)]
pub struct ManifestFile {
    pub path: String,
    pub hash: String,
}

/// A tracked file belongs in this device's manifest when it has a hash, is not
/// quarantined (dirty after a failure) and still exists.
pub open spec fn in_manifest(f: TrackedFile) -> bool {
    f.hash@.len() > 0 && !(f.is_dirty && f.retry_count > 0) && f.exists
}

/// The manifest entries of the tracked files, in order.
pub open spec fn manifest_spec(files: Seq<TrackedFile>) -> Seq<(Seq<char>, Seq<char>)>
    decreases files.len(),
{
    if files.len() == 0 {
        Seq::empty()
    } else {
        let rest = manifest_spec(files.drop_last());
        let f = files.last();
        if in_manifest(f) { rest.push((f.path@, f.hash@)) } else { rest }
    }
}

/// The views of manifest entries.
pub open spec fn manifest_views(v: Seq<ManifestFile>) -> Seq<(Seq<char>, Seq<char>)> {
    v.map_values(|m: ManifestFile| (m.path@, m.hash@))
}

/// The entries of this device's manifest (see [`in_manifest`]).
pub fn manifest_files(files: &Vec<TrackedFile>) -> (r: Vec<ManifestFile>)
    ensures
        manifest_views(r@) == manifest_spec(files@),
{
    let mut out: Vec<ManifestFile> = Vec::new();
    let mut i: usize = 0;
    while i < files.len()
        invariant
            i <= files.len(),
            manifest_views(out@) == manifest_spec(files@.take(i as int)),
        decreases files.len() - i,
    {
        let f = &files[i];
        proof {
            assert(files@.take(i + 1).drop_last() =~= files@.take(i as int));
        }
        let hc = chars_of(f.hash.as_str());
        if hc.len() > 0 && !(f.is_dirty && f.retry_count > 0) && f.exists {
            let ghost before = out@;
            out.push(ManifestFile { path: f.path.clone(), hash: f.hash.clone() });
            proof {
                assert(manifest_views(out@) =~= manifest_views(before).push((f.path@, f.hash@)));
            }
        }
        i += 1;
    }
    assert(files@.take(files.len() as int) =~= files@);
    out
}

/// `.noda/sync/manifests/manifest_<device>.json`.
pub open spec fn manifest_path_spec(device: Seq<char>) -> Seq<char> {
    seq!['.', 'n', 'o', 'd', 'a', '/', 's', 'y', 'n', 'c', '/', 'm', 'a', 'n', 'i', 'f', 'e', 's', 't', 's', '/', 'm', 'a', 'n', 'i', 'f', 'e', 's', 't', '_']
        + device + seq!['.', 'j', 's', 'o', 'n']
}

/// The vault-relative path of a device's manifest.
pub fn manifest_path(device: &str) -> (r: String)
    ensures
        r@ == manifest_path_spec(device@),
{
    let mut v = vec!['.', 'n', 'o', 'd', 'a', '/', 's', 'y', 'n', 'c', '/', 'm', 'a', 'n', 'i', 'f', 'e', 's', 't', 's', '/', 'm', 'a', 'n', 'i', 'f', 'e', 's', 't', '_'];
    let d = chars_of(device);
    extend_chars(&mut v, &d);
    extend_chars(&mut v, &['.', 'j', 's', 'o', 'n']);
    string_of(&v)
}

/// `.noda/sync/<device>.sync`.
pub open spec fn signature_path_spec(device: Seq<char>) -> Seq<char> {
    seq!['.', 'n', 'o', 'd', 'a', '/', 's', 'y', 'n', 'c', '/'] + device + sync_suffix()
}

/// The vault-relative path of a device's empty `.sync` signature file.
pub fn signature_path(device: &str) -> (r: String)
    ensures
        r@ == signature_path_spec(device@),
{
    let mut v = vec!['.', 'n', 'o', 'd', 'a', '/', 's', 'y', 'n', 'c', '/'];
    let d = chars_of(device);
    extend_chars(&mut v, &d);
    extend_chars(&mut v, &['.', 's', 'y', 'n', 'c']);
    assert(sync_suffix() =~= (['.', 's', 'y', 'n', 'c'])@);
    string_of(&v)
}


/// Scanning `s` from the left: the `/`-terminated segments so far and the open one.
pub open spec fn segments_scan(s: Seq<char>) -> (Seq<Seq<char>>, Seq<char>)
    decreases s.len(),
{
    if s.len() == 0 {
        (Seq::empty(), Seq::empty())
    } else {
        let (done, cur) = segments_scan(s.drop_last());
        if s.last() == '/' {
            (done.push(cur), Seq::empty())
        } else {
            (done, cur.push(s.last()))
        }
    }
}

/// The directory segments of a path: every `/`-separated piece but the last.
pub open spec fn dir_segments(s: Seq<char>) -> Seq<Seq<char>> {
    segments_scan(s).0
}

/// Walking down the directory segments (empty ones skipped): the path reached and every
/// path passed, in order.
pub open spec fn dir_walk(segs: Seq<Seq<char>>) -> (Seq<char>, Seq<Seq<char>>)
    decreases segs.len(),
{
    if segs.len() == 0 {
        (Seq::empty(), Seq::empty())
    } else {
        let (cur, passed) = dir_walk(segs.drop_last());
        let seg = segs.last();
        if seg.len() == 0 {
            (cur, passed)
        } else {
            let next = if cur.len() == 0 { seg } else { cur + seq!['/'] + seg };
            (next, passed.push(next))
        }
    }
}

/// The paths of a list that `existing` lacks, in order.
pub open spec fn lacking(paths: Seq<Seq<char>>, existing: Seq<Seq<char>>) -> Seq<Seq<char>>
    decreases paths.len(),
{
    if paths.len() == 0 {
        Seq::empty()
    } else {
        let rest = lacking(paths.drop_last(), existing);
        if existing.contains(paths.last()) { rest } else { rest.push(paths.last()) }
    }
}

/// The relative paths of the collections of a listing below `root`, in order.
pub open spec fn collection_paths_spec(entries: Seq<RemoteEntryView>, root: Seq<char>) -> Seq<Seq<char>>
    decreases entries.len(),
{
    if entries.len() == 0 {
        Seq::empty()
    } else {
        let rest = collection_paths_spec(entries.drop_last(), root);
        let e = entries.last();
        if e.is_collection { rest.push(relative_path_spec(e.href, root)) } else { rest }
    }
}

/// The relative paths of the collections of a listing below `root`.
pub fn collection_paths(entries: &Vec<RemoteEntry>, root: &str) -> (r: Vec<String>)
    ensures
        strings_view(r@) == collection_paths_spec(entry_views(entries@), root@),
{
    let ghost ev = entry_views(entries@);
    let mut out: Vec<String> = Vec::new();
    let mut i: usize = 0;
    while i < entries.len()
        invariant
            i <= entries.len(),
            ev == entry_views(entries@),
            strings_view(out@) == collection_paths_spec(ev.take(i as int), root@),
        decreases entries.len() - i,
    {
        let e = &entries[i];
        proof {
            assert(ev.take(i + 1).drop_last() =~= ev.take(i as int));
            assert(ev.take(i + 1).last() == e@);
        }
        if e.is_collection {
            let rel = get_relative_path(e.href.as_str(), root);
            let ghost before = out@;
            out.push(rel);
            proof {
                assert(strings_view(out@) =~= strings_view(before).push(rel@));
            }
        }
        i += 1;
    }
    assert(ev.take(entries.len() as int) =~= ev);
    out
}

/// The remote collections to create before `relative_path` can be written: every
/// directory on the way down that the listing's collections (`existing`) lack, outermost
/// first.
pub fn missing_parent_collections(relative_path: &str, existing: &Vec<String>) -> (r: Vec<String>)
    ensures
        strings_view(r@) == lacking(dir_walk(dir_segments(relative_path@)).1, strings_view(existing@)),
{
    let s = chars_of(relative_path);
    let ghost ex = strings_view(existing@);
    let mut done: Ghost<Seq<Seq<char>>> = Ghost(Seq::empty());
    let mut seg: Vec<char> = Vec::new();
    let mut cur: Vec<char> = Vec::new();
    let mut out: Vec<String> = Vec::new();
    let mut i: usize = 0;
    while i < s.len()
        invariant
            i <= s.len(),
            s@ == relative_path@,
            ex == strings_view(existing@),
            (done@, seg@) == segments_scan(s@.take(i as int)),
            cur@ == dir_walk(done@).0,
            strings_view(out@) == lacking(dir_walk(done@).1, ex),
        decreases s.len() - i,
    {
        let c = s[i];
        proof {
            assert(s@.take(i + 1).drop_last() =~= s@.take(i as int));
        }
        if c == '/' {
            let ghost segs = done@.push(seg@);
            proof {
                assert(segs.drop_last() =~= done@);
            }
            if seg.len() > 0 {
                if cur.len() > 0 {
                    cur.push('/');
                }
                extend_chars(&mut cur, &seg);
                proof {
                    let prev = dir_walk(done@).0;
                    if prev.len() == 0 {
                        assert(cur@ =~= seg@);
                    } else {
                        assert(cur@ =~= prev + seq!['/'] + seg@);
                    }
                }
                let cs = string_of(&cur);
                proof {
                    assert(segs.last() == seg@);
                    assert(dir_walk(segs).0 == cur@);
                    assert(dir_walk(segs).1 == dir_walk(done@).1.push(cur@));
                    assert(dir_walk(segs).1.drop_last() =~= dir_walk(done@).1);
                }
                if !holds_string(existing, cs.as_str()) {
                    let ghost before = out@;
                    out.push(cs);
                    proof {
                        assert(strings_view(out@) =~= strings_view(before).push(cs@));
                    }
                }
            }
            proof {
                if seg@.len() == 0 {
                    assert(segs.last() == seg@);
                    assert(dir_walk(segs) == dir_walk(done@));
                }
                done@ = segs;
            }
            seg = Vec::new();
        } else {
            seg.push(c);
        }
        i += 1;
    }
    assert(s@.take(s.len() as int) =~= s@);
    out
}

/// A failed `MKCOL` is tolerated when the server says the collection exists or its
/// parent is missing (status 405 or 409 in the message).
pub fn mkcol_failure_tolerated(message: &str) -> (r: bool)
    ensures
        r == (contains_seq(message@, seq!['4', '0', '5']) || contains_seq(message@, seq!['4', '0', '9'])),
{
    let m = chars_of(message);
    assert(seq!['4', '0', '5'] =~= (['4', '0', '5'])@);
    assert(seq!['4', '0', '9'] =~= (['4', '0', '9'])@);
    contains(&m, &['4', '0', '5']) || contains(&m, &['4', '0', '9'])
}

/// The record of a device's signature entry: its ETag and parsed last-modified time.
pub fn signature_record(entry: &RemoteEntry) -> (r: DeviceMetadata)
    ensures
        opt_view(r.last_known_etag) == entry@.etag,
        r.last_known_modified == match entry@.last_modified {
            Some(t) => last_modified_instant(t),
            None => None,
        },
{
    let lm = match &entry.last_modified {
        Some(t) => parse_last_modified(t.as_str()),
        None => None,
    };
    DeviceMetadata { last_known_etag: copy_opt(&entry.etag), last_known_modified: lm }
}

/// The record kept of a file after it was uploaded: with the server's entry for it when
/// one was listed (its ETag, parsed last-modified time and size, else the content
/// length), else no ETag and the local modification time; clean, with the content hash.
pub fn uploaded_metadata(listed: Option<&RemoteEntry>, content_len: u64, modified: Timestamp, hash: String) -> (r: RemoteFileMetadata)
    ensures
        r.local_updated_at == Some(modified),
        r.hash@ == hash@,
        !r.is_dirty,
        match listed {
            Some(e) => {
                &&& opt_view(r.etag) == e@.etag
                &&& r.last_modified == match e@.last_modified { Some(t) => last_modified_instant(t), None => None }
                &&& r.size == match e@.size { Some(n) => n, None => content_len }
            },
            None => {
                &&& r.etag is None
                &&& r.last_modified == Some(modified)
                &&& r.size == content_len
            },
        },
{
    match listed {
        Some(e) => {
            let lm = match &e.last_modified {
                Some(t) => parse_last_modified(t.as_str()),
                None => None,
            };
            let size = match e.size {
                Some(n) => n,
                None => content_len,
            };
            RemoteFileMetadata { etag: copy_opt(&e.etag), last_modified: lm, size, local_updated_at: Some(modified), hash, is_dirty: false }
        },
        None => RemoteFileMetadata { etag: None, last_modified: Some(modified), size: content_len, local_updated_at: Some(modified), hash, is_dirty: false },
    }
}

/// The record kept of a file after it was downloaded: the remote entry's ETag, parsed
/// last-modified time and size (else the content length), the local modification time;
/// clean, with the content hash.
pub fn downloaded_metadata(entry: &RemoteEntry, content_len: u64, modified: Timestamp, hash: String) -> (r: RemoteFileMetadata)
    ensures
        opt_view(r.etag) == entry@.etag,
        r.last_modified == match entry@.last_modified { Some(t) => last_modified_instant(t), None => None },
        r.size == match entry@.size { Some(n) => n, None => content_len },
        r.local_updated_at == Some(modified),
        r.hash@ == hash@,
        !r.is_dirty,
{
    uploaded_metadata(Some(entry), content_len, modified, hash)
}

/// Pull before push: no local push touches a path that the pull from the peers already
/// acts on, and every push is an upload of a dirty file that still exists or a remote
/// deletion of one that is gone.
pub proof fn law_pushes_avoid_pulled_paths(dirty: Seq<(Seq<char>, bool)>, remote: Seq<SyncActionView>)
    ensures
        forall|i: int| 0 <= i < local_actions_spec(dirty, remote).len() ==> {
            let a = #[trigger] local_actions_spec(dirty, remote)[i];
            &&& !has_action_for(remote, action_path(a))
            &&& exists|j: int| 0 <= j < dirty.len() && dirty[j].0 == action_path(a)
                && (if dirty[j].1 { a == SyncActionView::Upload(dirty[j].0) } else { a == SyncActionView::DeleteRemote(dirty[j].0) })
        },
    decreases dirty.len(),
{
    if dirty.len() > 0 {
        let rest = dirty.drop_last();
        law_pushes_avoid_pulled_paths(rest, remote);
        let out = local_actions_spec(dirty, remote);
        let before = local_actions_spec(rest, remote);
        assert forall|i: int| 0 <= i < out.len() implies {
            let a = #[trigger] out[i];
            &&& !has_action_for(remote, action_path(a))
            &&& exists|j: int| 0 <= j < dirty.len() && dirty[j].0 == action_path(a)
                && (if dirty[j].1 { a == SyncActionView::Upload(dirty[j].0) } else { a == SyncActionView::DeleteRemote(dirty[j].0) })
        } by {
            if i < before.len() {
                assert(out[i] == before[i]);
                let a = before[i];
                let j = choose|j: int| 0 <= j < rest.len() && rest[j].0 == action_path(a)
                    && (if rest[j].1 { a == SyncActionView::Upload(rest[j].0) } else { a == SyncActionView::DeleteRemote(rest[j].0) });
                assert(dirty[j] == rest[j]);
            } else {
                let j = dirty.len() - 1;
                assert(dirty[j] == dirty.last());
            }
        }
    }
}

/// A peer's removals only ever name files the peer listed before, that its new manifest
/// no longer lists, and that are not ignored (`.DS_Store`, hidden paths).
pub proof fn law_peer_deletions_were_listed_before(previous: Seq<Seq<char>>, manifest: Seq<Seq<char>>)
    ensures
        forall|i: int| 0 <= i < deleted_paths_spec(previous, manifest).len() ==> {
            let p = #[trigger] deleted_paths_spec(previous, manifest)[i];
            previous.contains(p) && !manifest.contains(p) && !peer_path_ignored(p)
        },
    decreases previous.len(),
{
    if previous.len() > 0 {
        let rest = previous.drop_last();
        law_peer_deletions_were_listed_before(rest, manifest);
        let out = deleted_paths_spec(previous, manifest);
        let before = deleted_paths_spec(rest, manifest);
        assert forall|i: int| 0 <= i < out.len() implies {
            let p = #[trigger] out[i];
            previous.contains(p) && !manifest.contains(p) && !peer_path_ignored(p)
        } by {
            if i < before.len() {
                assert(out[i] == before[i]);
                let k = choose|k: int| 0 <= k < rest.len() && rest[k] == before[i];
                assert(previous[k] == rest[k]);
            } else {
                assert(previous[previous.len() - 1] == previous.last());
            }
        }
    }
}

/// Unsynchronised local edits are never lost to a peer: for a file that is dirty here,
/// a peer's deletion or change never deletes or overwrites it; it becomes a conflict (for
/// a note) or is left alone.
pub proof fn law_dirty_files_are_never_overwritten(path: Seq<char>, exists: bool, local: Option<RemoteFileMetadata>, new_hash: Seq<char>)
    requires
        locally_dirty(local),
    ensures
        !(deletion_decision(path, exists, local) matches PeerDecisionView::Act(_)),
        !(change_decision(path, exists, local, new_hash) matches PeerDecisionView::Act(_)) || !exists,
{
}

/// This device's own record survives pruning, whatever the listing.
pub proof fn law_own_device_is_never_pruned(entries: Seq<RemoteEntryView>, own: Seq<char>)
    ensures
        !stale_device(entries, own, own),
{
}

/// A manifest lists only files that have a content hash, are not quarantined and still
/// exist, each with its hash.
pub proof fn law_manifest_lists_only_clean_existing_files(files: Seq<TrackedFile>)
    ensures
        forall|i: int| 0 <= i < manifest_spec(files).len() ==> is_listed_file(files, #[trigger] manifest_spec(files)[i]),
    decreases files.len(),
{
    if files.len() > 0 {
        let rest = files.drop_last();
        law_manifest_lists_only_clean_existing_files(rest);
        assert forall|i: int| 0 <= i < manifest_spec(files).len() implies is_listed_file(files, #[trigger] manifest_spec(files)[i]) by {
            if i < manifest_spec(rest).len() {
                assert(manifest_spec(files)[i] == manifest_spec(rest)[i]);
                let j = choose|j: int| 0 <= j < rest.len() && in_manifest(rest[j]) && (rest[j].path@, rest[j].hash@) == manifest_spec(rest)[i];
                assert(files[j] == rest[j]);
            } else {
                assert(files[files.len() - 1] == files.last());
            }
        }
    }
}

/// Some file of the list belongs in the manifest and is listed as `entry`.
pub open spec fn is_listed_file(files: Seq<TrackedFile>, entry: (Seq<char>, Seq<char>)) -> bool {
    exists|j: int| 0 <= j < files.len() && in_manifest(files[j]) && (files[j].path@, files[j].hash@) == entry
}

/// What follows an attempt of an action.
#[derive(Debug, Clone, Copy, PartialEq, Eq)]
pub enum RetryStep {
    /// The action succeeded.
    Done,
    /// Try again after this many seconds.
    RetryAfter { secs: u64 },
    /// Give up: the file is quarantined.
    Quarantine,
}

/// A failed action is retried up to three more times, waiting 1, 2, then 3 seconds;
/// after that the file is quarantined. `retries_done` counts the retries already made.
pub fn retry_step(retries_done: u32, succeeded: bool) -> (r: RetryStep)
    ensures
        succeeded ==> r == RetryStep::Done,
        !succeeded && retries_done < 3 ==> r == (RetryStep::RetryAfter { secs: (retries_done + 1) as u64 }),
        !succeeded && retries_done >= 3 ==> r == RetryStep::Quarantine,
{
    if succeeded {
        RetryStep::Done
    } else if retries_done < 3 {
        RetryStep::RetryAfter { secs: (retries_done + 1) as u64 }
    } else {
        RetryStep::Quarantine
    }
}


/// The xxHash3 64-bit hash of some bytes (`xxhash_rust::xxh3::xxh3_64`).
pub uninterp spec fn xxh3_of(bytes: Seq<u8>) -> u64;

/// `xxhash_rust::xxh3::xxh3_64`. Claimed: the result is the named hash of the bytes.
#[verifier::external_body]
fn xxh3_64(bytes: &[u8]) -> (r: u64)
    ensures
        r == xxh3_of(bytes@),
{
    xxhash_rust::xxh3::xxh3_64(bytes)
}

/// `16` to the power `n`.
pub open spec fn pow16(n: nat) -> nat
    decreases n,
{
    if n == 0 {
        1
    } else {
        pow16((n - 1) as nat) * 16
    }
}

proof fn lemma_pow16_positive(n: nat)
    ensures
        pow16(n) > 0,
    decreases n,
{
    if n > 0 {
        lemma_pow16_positive((n - 1) as nat);
    }
}

/// The lower-case hexadecimal digit of a value below 16.
pub open spec fn hex_char(d: int) -> char {
    if d < 10 {
        ((('0' as int) + d) as char)
    } else {
        ((('a' as int) + d - 10) as char)
    }
}

/// A 64-bit value as 16 lower-case hexadecimal digits, zero-padded (`{:016x}`).
pub open spec fn hex16_spec(v: u64) -> Seq<char> {
    Seq::new(16, |i: int| hex_char(((v as int) / (pow16((15 - i) as nat) as int)) % 16))
}

/// A 64-bit value as 16 lower-case hexadecimal digits.
pub fn hex16(v: u64) -> (r: String)
    ensures
        r@ == hex16_spec(v),
{
    let mut out: Vec<char> = vec!['0'; 16];
    let mut x: u64 = v;
    let mut k: usize = 0;
    assert(pow16(0) == 1);
    assert((v as int) / 1 == v as int);
    while k < 16
        invariant
            k <= 16,
            out@.len() == 16,
            x as int == (v as int) / (pow16(k as nat) as int),
            forall|j: int| 16 - k <= j < 16 ==> #[trigger] out@[j] == hex_char(((v as int) / (pow16((15 - j) as nat) as int)) % 16),
        decreases 16 - k,
    {
        let d: u64 = x % 16;
        let c: char = if d < 10 {
            let b: u8 = d as u8;
            ((48u8 + b) as u8) as char
        } else {
            let b: u8 = d as u8;
            ((87u8 + b) as u8) as char
        };
        assert(c == hex_char(d as int));
        out[15 - k] = c;
        proof {
            lemma_pow16_positive(k as nat);
            vstd::arithmetic::div_mod::lemma_div_denominator(v as int, pow16(k as nat) as int, 16);
            assert(pow16((k + 1) as nat) == pow16(k as nat) * 16);
            assert((15 - (15 - k)) == k);
        }
        x = x / 16;
        k += 1;
    }
    string_of(&out)
}

/// The content hash the vault records: `{:016x}` of the xxHash3 64-bit hash.
pub open spec fn content_hash_spec(bytes: Seq<u8>) -> Seq<char> {
    hex16_spec(xxh3_of(bytes))
}

/// The content hash of some bytes: their xxHash3 64-bit hash as 16 hex digits.
pub fn content_hash(bytes: &[u8]) -> (r: String)
    ensures
        r@ == content_hash_spec(bytes@),
{
    hex16(xxh3_64(bytes))
}


/// `true` for the lower-case hexadecimal digits.
pub open spec fn lower_hex_digit(c: char) -> bool {
    ('0' <= c && c <= '9') || ('a' <= c && c <= 'f')
}

/// A freshly generated random (version 4) UUID in its standard text: 36 characters,
/// hyphenated, lower-case hexadecimal digits (`uuid::Uuid::new_v4().to_string()`).
/// Claimed: only the shape of the text; its value is random.
#[verifier::external_body]
fn random_uuid_text() -> (r: String)
    ensures
        r@.len() == 36,
        forall|i: int| 0 <= i < 8 ==> lower_hex_digit(#[trigger] r@[i]),
{
    uuid::Uuid::new_v4().to_string()
}

/// ASCII upper case of a character.
pub open spec fn ascii_upper(c: char) -> char {
    if 'a' <= c && c <= 'z' {
        ((c as int) - 32) as char
    } else {
        c
    }
}

/// `Noda-Device-` followed by the given four characters in upper case.
pub open spec fn device_name_from(hex: Seq<char>) -> Seq<char> {
    seq!['N', 'o', 'd', 'a', '-', 'D', 'e', 'v', 'i', 'c', 'e', '-'] + hex.take(4).map_values(|c: char| ascii_upper(c))
}

/// A device name made of the first four characters of a random UUID.
pub open spec fn is_generated_device_name(name: Seq<char>) -> bool {
    exists|hex: Seq<char>| hex.len() == 4 && (forall|i: int| 0 <= i < 4 ==> lower_hex_digit(#[trigger] hex[i]))
        && name == device_name_from(hex)
}


/// How this device reaches its WebDAV server, and how often it synchronises.
#[derive(Debug)]
pub struct SyncConfig {
    pub webdav_url: String,
    pub webdav_username: String,
    pub webdav_password: Option<String>,
    pub interval_secs: u64,
    pub device_name: String,
}

impl SyncConfig {
    /// A random device name: `Noda-Device-` and four upper-case hexadecimal digits taken
    /// from a random UUID.
    pub fn generate_random_device_name() -> (r: String)
        ensures
            is_generated_device_name(r@),
            r@.len() == 16,
    {
        let u = random_uuid_text();
        let uc = chars_of(u.as_str());
        let mut v = vec!['N', 'o', 'd', 'a', '-', 'D', 'e', 'v', 'i', 'c', 'e', '-'];
        let mut i: usize = 0;
        while i < 4
            invariant
                i <= 4,
                uc@ == u@,
                uc@.len() == 36,
                forall|j: int| 0 <= j < 8 ==> lower_hex_digit(#[trigger] uc@[j]),
                v@ == seq!['N', 'o', 'd', 'a', '-', 'D', 'e', 'v', 'i', 'c', 'e', '-'] + uc@.take(i as int).map_values(|c: char| ascii_upper(c)),
            decreases 4 - i,
        {
            let c = uc[i];
            let up = if 'a' <= c && c <= 'z' {
                let b: u8 = c as u8;
                ((b - 32) as u8) as char
            } else {
                c
            };
            v.push(up);
            proof {
                assert(uc@.take(i + 1).map_values(|c: char| ascii_upper(c)) =~= uc@.take(i as int).map_values(|c: char| ascii_upper(c)).push(ascii_upper(c)));
            }
            i += 1;
        }
        proof {
            let hex = uc@.take(4);
            assert(hex.take(4) =~= hex);
            assert(v@ == device_name_from(hex));
            assert(forall|j: int| 0 <= j < 4 ==> lower_hex_digit(#[trigger] hex[j]) ) by {
                assert forall|j: int| 0 <= j < 4 implies lower_hex_digit(#[trigger] hex[j]) by {
                    assert(hex[j] == uc@[j]);
                }
            }
        }
        string_of(&v)
    }

    /// The configuration of a vault that has none yet: no server, no credentials, a sync
    /// every 300 seconds, and a random device name.
    pub fn unconfigured() -> (r: SyncConfig)
        ensures
            r.webdav_url@.len() == 0,
            r.webdav_username@.len() == 0,
            r.webdav_password is None,
            r.interval_secs == 300,
            is_generated_device_name(r.device_name@),
    {
        SyncConfig {
            webdav_url: String::new(),
            webdav_username: String::new(),
            webdav_password: None,
            interval_secs: 300,
            device_name: SyncConfig::generate_random_device_name(),
        }
    }

    /// Gives a loaded configuration without a device name a random one; tells whether it
    /// did (the configuration is then to be saved).
    pub fn ensure_device_name(&mut self) -> (generated: bool)
        ensures
            generated == (old(self).device_name@.len() == 0),
            generated ==> is_generated_device_name(final(self).device_name@),
            !generated ==> final(self).device_name@ == old(self).device_name@,
            final(self).webdav_url@ == old(self).webdav_url@,
            final(self).webdav_username@ == old(self).webdav_username@,
            opt_view(final(self).webdav_password) == opt_view(old(self).webdav_password),
            final(self).interval_secs == old(self).interval_secs,
    {
        let empty = str_eq(self.device_name.as_str(), "");
        proof {
            reveal_strlit("");
            assert(""@ =~= Seq::<char>::empty());
            if self.device_name@.len() == 0 {
                assert(self.device_name@ =~= ""@);
            }
        }
        if empty {
            self.device_name = SyncConfig::generate_random_device_name();
            true
        } else {
            false
        }
    }
}

/// The state of the synchronisation engine.
#[derive(Debug)]
pub enum SyncStatus {
    Idle,
    Syncing,
    Error(String),
}

/// A manual synchronisation may start unless one is running; else it fails with
/// `Sync already in progress`.
pub fn check_sync_allowed(status: &SyncStatus) -> (r: Result<(), crate::errors::NodaError>)
    ensures
        r is Ok <==> !(status is Syncing),
        r matches Err(e) ==> e is Sync && crate::errors::detail_of(e)
            == seq!['S', 'y', 'n', 'c', ' ', 'a', 'l', 'r', 'e', 'a', 'd', 'y', ' ', 'i', 'n', ' ', 'p', 'r', 'o', 'g', 'r', 'e', 's', 's'],
{
    match status {
        SyncStatus::Syncing => {
            let m = vec!['S', 'y', 'n', 'c', ' ', 'a', 'l', 'r', 'e', 'a', 'd', 'y', ' ', 'i', 'n', ' ', 'p', 'r', 'o', 'g', 'r', 'e', 's', 's'];
            Err(crate::errors::NodaError::Sync(string_of(&m)))
        },
        _ => Ok(()),
    }
}


/// What the executor of a synchronisation action has learned so far: nothing yet, the
/// remote file was read, or the server has no such file.
#[derive(Debug, Clone, Copy)]
pub enum StepEvent {
    Begin,
    RemoteRead,
    RemoteMissing,
}

/// The next thing the executor of an action does.
#[derive(Debug)]
pub enum StepPlan {
    /// Upload the raw file (making its parent collections first).
    PushRaw,
    /// Upload the note with this identifier (making its parent collections first).
    PushNote(String),
    /// Nothing is done and nothing reported.
    Skip,
    /// Read the remote file first.
    FetchRemote,
    /// Store the downloaded raw file.
    StoreRaw,
    /// Store the downloaded note (and index it).
    StoreNote,
    /// The remote file is gone: forget its recorded state.
    Forget,
    /// Delete the remote file and forget its state.
    RemoveRemote,
    /// Delete the local file and forget its state; drop its index row when asked.
    RemoveLocal(bool),
    /// Archive the remote version as a conflict file, then upload the local note.
    ArchiveAndPush,
    /// Upload the local note as it is (its parent collections are not made).
    PushOnly,
}

/// Abstract value of a step plan.
pub enum StepPlanView {
    PushRaw,
    PushNote(Seq<char>),
    Skip,
    FetchRemote,
    StoreRaw,
    StoreNote,
    Forget,
    RemoveRemote,
    RemoveLocal(bool),
    ArchiveAndPush,
    PushOnly,
}

impl View for StepPlan {
    type V = StepPlanView;

    open spec fn view(&self) -> StepPlanView {
        match self {
            StepPlan::PushRaw => StepPlanView::PushRaw,
            StepPlan::PushNote(id) => StepPlanView::PushNote(id@),
            StepPlan::Skip => StepPlanView::Skip,
            StepPlan::FetchRemote => StepPlanView::FetchRemote,
            StepPlan::StoreRaw => StepPlanView::StoreRaw,
            StepPlan::StoreNote => StepPlanView::StoreNote,
            StepPlan::Forget => StepPlanView::Forget,
            StepPlan::RemoveRemote => StepPlanView::RemoveRemote,
            StepPlan::RemoveLocal(b) => StepPlanView::RemoveLocal(*b),
            StepPlan::ArchiveAndPush => StepPlanView::ArchiveAndPush,
            StepPlan::PushOnly => StepPlanView::PushOnly,
        }
    }
}

/// How an action is carried out: an upload sends a file under `.noda/` as raw bytes and
/// a note file as its note (skipping a path that names no note); a download reads the
/// remote file, then stores it as raw bytes or as a note, or forgets the path when the
/// server has no such file; a remote deletion deletes; a local deletion deletes and drops
/// the index row of a note file; a conflict reads the remote file, archives it and
/// uploads the local note, or just uploads the local note when the remote file is gone.
/// Any other combination does nothing.
pub open spec fn action_step_spec(a: SyncActionView, e: StepEvent) -> StepPlanView {
    match (a, e) {
        (SyncActionView::Upload(p), StepEvent::Begin) => if has_prefix(p, crate::delta::noda_prefix()) {
            StepPlanView::PushRaw
        } else {
            match conflict_note_of(p) {
                Some(id) => StepPlanView::PushNote(id),
                None => StepPlanView::Skip,
            }
        },
        (SyncActionView::Download(_, _), StepEvent::Begin) => StepPlanView::FetchRemote,
        (SyncActionView::Download(p, _), StepEvent::RemoteRead) => if has_prefix(p, crate::delta::noda_prefix()) {
            StepPlanView::StoreRaw
        } else {
            StepPlanView::StoreNote
        },
        (SyncActionView::Download(_, _), StepEvent::RemoteMissing) => StepPlanView::Forget,
        (SyncActionView::DeleteRemote(_), StepEvent::Begin) => StepPlanView::RemoveRemote,
        (SyncActionView::DeleteLocal(p), StepEvent::Begin) => StepPlanView::RemoveLocal(!has_prefix(p, crate::delta::noda_prefix())),
        (SyncActionView::Conflict(_, _, _), StepEvent::Begin) => StepPlanView::FetchRemote,
        (SyncActionView::Conflict(_, _, _), StepEvent::RemoteRead) => StepPlanView::ArchiveAndPush,
        (SyncActionView::Conflict(_, _, _), StepEvent::RemoteMissing) => StepPlanView::PushOnly,
        _ => StepPlanView::Skip,
    }
}

fn under_noda(p: &str) -> (r: bool)
    ensures
        r == has_prefix(p@, crate::delta::noda_prefix()),
{
    let c = chars_of(p);
    let pre = ['.', 'n', 'o', 'd', 'a', '/'];
    assert(pre@ =~= crate::delta::noda_prefix());
    crate::text::starts_with(c.as_slice(), &pre)
}

/// The next step of carrying out `action` after `event` (see [`action_step_spec`]).
pub fn action_step(action: &SyncAction, event: StepEvent) -> (r: StepPlan)
    ensures
        r@ == action_step_spec(action@, event),
{
    match (action, event) {
        (SyncAction::Upload { relative_path }, StepEvent::Begin) => if under_noda(relative_path.as_str()) {
            StepPlan::PushRaw
        } else {
            match conflict_note_id(relative_path.as_str()) {
                Some(id) => StepPlan::PushNote(id),
                None => StepPlan::Skip,
            }
        },
        (SyncAction::Download { .. }, StepEvent::Begin) => StepPlan::FetchRemote,
        (SyncAction::Download { relative_path, .. }, StepEvent::RemoteRead) => if under_noda(relative_path.as_str()) {
            StepPlan::StoreRaw
        } else {
            StepPlan::StoreNote
        },
        (SyncAction::Download { .. }, StepEvent::RemoteMissing) => StepPlan::Forget,
        (SyncAction::DeleteRemote { .. }, StepEvent::Begin) => StepPlan::RemoveRemote,
        (SyncAction::DeleteLocal { relative_path }, StepEvent::Begin) => StepPlan::RemoveLocal(!under_noda(relative_path.as_str())),
        (SyncAction::Conflict { .. }, StepEvent::Begin) => StepPlan::FetchRemote,
        (SyncAction::Conflict { .. }, StepEvent::RemoteRead) => StepPlan::ArchiveAndPush,
        (SyncAction::Conflict { .. }, StepEvent::RemoteMissing) => StepPlan::PushOnly,
        _ => StepPlan::Skip,
    }
}

/// What a finished step reports: an upload, a stored download, the deletions and an
/// archived conflict are reported; skipping, forgetting a vanished file and uploading a
/// conflict's note whose remote file vanished are not.
pub open spec fn step_outcome_spec(p: StepPlanView) -> Option<Outcome> {
    match p {
        StepPlanView::PushRaw => Some(Outcome::Uploaded),
        StepPlanView::PushNote(_) => Some(Outcome::Uploaded),
        StepPlanView::StoreRaw => Some(Outcome::Downloaded),
        StepPlanView::StoreNote => Some(Outcome::Downloaded),
        StepPlanView::RemoveRemote => Some(Outcome::DeletedRemote),
        StepPlanView::RemoveLocal(_) => Some(Outcome::DeletedLocal),
        StepPlanView::ArchiveAndPush => Some(Outcome::ConflictArchived),
        _ => None,
    }
}

/// What a finished step reports (see [`step_outcome_spec`]).
pub fn step_outcome(p: &StepPlan) -> (r: Option<Outcome>)
    ensures
        r == step_outcome_spec(p@),
{
    match p {
        StepPlan::PushRaw => Some(Outcome::Uploaded),
        StepPlan::PushNote(_) => Some(Outcome::Uploaded),
        StepPlan::StoreRaw => Some(Outcome::Downloaded),
        StepPlan::StoreNote => Some(Outcome::Downloaded),
        StepPlan::RemoveRemote => Some(Outcome::DeletedRemote),
        StepPlan::RemoveLocal(_) => Some(Outcome::DeletedLocal),
        StepPlan::ArchiveAndPush => Some(Outcome::ConflictArchived),
        _ => None,
    }
}

/// The paths a peer removed since its last manifest: none for a peer seen for the first
/// time (it has no earlier list), else those listed before and no more.
pub fn peer_removed_paths(previous: &Vec<String>, listed: &Vec<String>) -> (r: Vec<String>)
    ensures
        strings_view(r@) == (if previous@.len() == 0 {
            Seq::<Seq<char>>::empty()
        } else {
            deleted_paths_spec(strings_view(previous@), strings_view(listed@))
        }),
{
    if previous.len() == 0 {
        let v: Vec<String> = Vec::new();
        assert(strings_view(v@) =~= Seq::<Seq<char>>::empty());
        v
    } else {
        deleted_peer_paths(previous, listed)
    }
}

/// The action a peer decision comes to, given the local note it names when it asks for a
/// conflict resolution (`None` when that note cannot be read): nothing for a skip or an
/// unreadable note, the decided action, or a conflict between that note and the remote
/// entry at `path`.
pub fn peer_decision_action(path: &str, decision: PeerDecision, local_note: Option<crate::models::Note>) -> (r: Option<SyncAction>)
    ensures
        match decision@ {
            PeerDecisionView::Skip => r is None,
            PeerDecisionView::Act(a) => r matches Some(x) && x@ == a,
            PeerDecisionView::ResolveConflict(_, re) => match local_note {
                Some(n) => r matches Some(x) && x@ == SyncActionView::Conflict(path@, n@, re),
                None => r is None,
            },
        },
{
    match decision {
        PeerDecision::Skip => None,
        PeerDecision::Act(a) => Some(a),
        PeerDecision::ResolveConflict { note_id: _, remote_entry } => match local_note {
            Some(n) => Some(SyncAction::Conflict { relative_path: path.to_string(), local_note: n, remote_entry }),
            None => None,
        },
    }
}

} // verus!
