//! Vault diagnostics: orphaned attachments, duplicated notes and orphaned history or
//! conflict remnants, and the safety checks of their clean-up.
use vstd::prelude::*;
use crate::text::{chars_of, string_of, extend_chars, contains, contains_seq, split_on, pieces, has_prefix, has_suffix};
use crate::search::char_vecs;
use crate::models::strings_view;
use crate::errors::NodaError;
use crate::ulid::{canonical_ulid, parse_ulid};
use crate::time::{Timestamp, rfc3339_text, format_rfc3339};
use crate::vault::{path_extension, extension_of, last_index_of};
use crate::history::{snapshot_date_parses, local_snapshot_instant};
use crate::engine::{file_stem, file_stem_of};

verus! {

/// A file of the attachments directory and its size.
#[derive(Debug)]
pub struct OrphanedAttachment {
    pub filename: String,
    pub size_bytes: u64,
}

/// The title and body of a note, as far as references to attachments go.
#[derive(Debug)]
pub struct NoteText {
    pub title: String,
    pub body: String,
}

/// `true` when some note mentions `name` in its body or title.
pub open spec fn referenced(notes: Seq<NoteText>, name: Seq<char>) -> bool {
    exists|i: int| 0 <= i < notes.len() && (contains_seq((#[trigger] notes[i]).body@, name) || contains_seq(notes[i].title@, name))
}

/// The attachments no note mentions, in order; files whose name starts with `.` are
/// not attachments.
pub open spec fn orphaned_spec(files: Seq<OrphanedAttachment>, notes: Seq<NoteText>) -> Seq<(Seq<char>, u64)>
    decreases files.len(),
{
    if files.len() == 0 {
        Seq::empty()
    } else {
        let rest = orphaned_spec(files.drop_last(), notes);
        let f = files.last();
        if !(f.filename@.len() > 0 && f.filename@[0] == '.') && !referenced(notes, f.filename@) {
            rest.push((f.filename@, f.size_bytes))
        } else {
            rest
        }
    }
}

/// The views of attachment files.
pub open spec fn attachment_views(v: Seq<OrphanedAttachment>) -> Seq<(Seq<char>, u64)> {
    v.map_values(|a: OrphanedAttachment| (a.filename@, a.size_bytes))
}

/// `true` when some note mentions `name`.
fn is_referenced(notes: &Vec<NoteText>, name: &[char]) -> (r: bool)
    ensures
        r == referenced(notes@, name@),
{
    let mut i: usize = 0;
    while i < notes.len()
        invariant
            i <= notes.len(),
            forall|j: int| 0 <= j < i ==> !(contains_seq((#[trigger] notes@[j]).body@, name@) || contains_seq(notes@[j].title@, name@)),
        decreases notes.len() - i,
    {
        let b = chars_of(notes[i].body.as_str());
        let t = chars_of(notes[i].title.as_str());
        if contains(&b, name) || contains(&t, name) {
            return true;
        }
        i += 1;
    }
    false
}

/// The attachments that no note mentions in its body or title (see [`orphaned_spec`]).
pub fn orphaned_attachments(files: &Vec<OrphanedAttachment>, notes: &Vec<NoteText>) -> (r: Vec<OrphanedAttachment>)
    ensures
        attachment_views(r@) == orphaned_spec(files@, notes@),
{
    let mut out: Vec<OrphanedAttachment> = Vec::new();
    let mut i: usize = 0;
    while i < files.len()
        invariant
            i <= files.len(),
            attachment_views(out@) == orphaned_spec(files@.take(i as int), notes@),
        decreases files.len() - i,
    {
        let f = &files[i];
        proof {
            assert(files@.take(i + 1).drop_last() =~= files@.take(i as int));
        }
        let name = chars_of(f.filename.as_str());
        let hidden = name.len() > 0 && name[0] == '.';
        if !hidden && !is_referenced(notes, &name) {
            let ghost before = out@;
            out.push(OrphanedAttachment { filename: f.filename.clone(), size_bytes: f.size_bytes });
            proof {
                assert(attachment_views(out@) =~= attachment_views(before).push((f.filename@, f.size_bytes)));
            }
        }
        i += 1;
    }
    assert(files@.take(files.len() as int) =~= files@);
    out
}

/// A path-traversal error: `prefix` followed by the offending text.
fn traversal_error(prefix: Vec<char>, text: &str) -> (r: NodaError)
    ensures
        r is PathTraversal,
        crate::errors::detail_of(r) == prefix@ + text@,
{
    let mut m = prefix;
    let t = chars_of(text);
    extend_chars(&mut m, &t);
    NodaError::PathTraversal(string_of(&m))
}

/// An attachment name to delete must not reach outside the attachments directory: no
/// `/`, no `\`, not `..`.
pub open spec fn unsafe_attachment_name(name: Seq<char>) -> bool {
    contains_seq(name, seq!['/']) || contains_seq(name, seq!['\\']) || name == seq!['.', '.']
}

/// Refuses an attachment name that could reach outside the attachments directory, with
/// `Path traversal attempt detected in filename: <name>`.
pub fn check_attachment_name(name: &str) -> (r: Result<(), NodaError>)
    ensures
        r is Ok <==> !unsafe_attachment_name(name@),
        r matches Err(e) ==> e is PathTraversal && crate::errors::detail_of(e) == seq!['P', 'a', 't', 'h', ' ', 't', 'r', 'a', 'v', 'e', 'r', 's', 'a', 'l', ' ', 'a', 't', 't', 'e', 'm', 'p', 't', ' ', 'd', 'e', 't', 'e', 'c', 't', 'e', 'd', ' ', 'i', 'n', ' ', 'f', 'i', 'l', 'e', 'n', 'a', 'm', 'e', ':', ' '] + name@,
{
    let n = chars_of(name);
    assert(seq!['/'] =~= (['/'])@);
    assert(seq!['\\'] =~= (['\\'])@);
    let dots = ['.', '.'];
    assert(seq!['.', '.'] =~= dots@);
    if contains(&n, &['/']) || contains(&n, &['\\']) || crate::text::chars_eq(&n, &dots) {
        return Err(traversal_error(vec!['P', 'a', 't', 'h', ' ', 't', 'r', 'a', 'v', 'e', 'r', 's', 'a', 'l', ' ', 'a', 't', 't', 'e', 'm', 'p', 't', ' ', 'd', 'e', 't', 'e', 'c', 't', 'e', 'd', ' ', 'i', 'n', ' ', 'f', 'i', 'l', 'e', 'n', 'a', 'm', 'e', ':', ' '], name));
    }
    Ok(())
}

/// A relative path to delete must not climb (`..`) or use `\`.
pub open spec fn unsafe_relative_path(p: Seq<char>) -> bool {
    contains_seq(p, seq!['.', '.']) || contains_seq(p, seq!['\\'])
}

/// Refuses a duplicate file path that could reach outside the vault, with
/// `Invalid relative path: <path>`.
pub fn check_duplicate_path(path: &str) -> (r: Result<(), NodaError>)
    ensures
        r is Ok <==> !unsafe_relative_path(path@),
        r matches Err(e) ==> e is PathTraversal && crate::errors::detail_of(e) == seq!['I', 'n', 'v', 'a', 'l', 'i', 'd', ' ', 'r', 'e', 'l', 'a', 't', 'i', 'v', 'e', ' ', 'p', 'a', 't', 'h', ':', ' '] + path@,
{
    let p = chars_of(path);
    assert(seq!['.', '.'] =~= (['.', '.'])@);
    assert(seq!['\\'] =~= (['\\'])@);
    if contains(&p, &['.', '.']) || contains(&p, &['\\']) {
        return Err(traversal_error(vec!['I', 'n', 'v', 'a', 'l', 'i', 'd', ' ', 'r', 'e', 'l', 'a', 't', 'i', 'v', 'e', ' ', 'p', 'a', 't', 'h', ':', ' '], path));
    }
    Ok(())
}

/// Refuses a remnant path that could reach outside the vault, with
/// `Invalid remnant file path: <path>`.
pub fn check_remnant_path(path: &str) -> (r: Result<(), NodaError>)
    ensures
        r is Ok <==> !unsafe_relative_path(path@),
        r matches Err(e) ==> e is PathTraversal && crate::errors::detail_of(e) == seq!['I', 'n', 'v', 'a', 'l', 'i', 'd', ' ', 'r', 'e', 'm', 'n', 'a', 'n', 't', ' ', 'f', 'i', 'l', 'e', ' ', 'p', 'a', 't', 'h', ':', ' '] + path@,
{
    let p = chars_of(path);
    assert(seq!['.', '.'] =~= (['.', '.'])@);
    assert(seq!['\\'] =~= (['\\'])@);
    if contains(&p, &['.', '.']) || contains(&p, &['\\']) {
        return Err(traversal_error(vec!['I', 'n', 'v', 'a', 'l', 'i', 'd', ' ', 'r', 'e', 'm', 'n', 'a', 'n', 't', ' ', 'f', 'i', 'l', 'e', ' ', 'p', 'a', 't', 'h', ':', ' '], path));
    }
    Ok(())
}

/// A note found by a vault scan: its identifier, title and file (relative to the
/// vault), with the file's modification time (RFC 3339) and size as the disk gave them.
#[derive(Debug)]
pub struct ScannedNote {
    pub id: String,
    pub title: String,
    pub file_path: String,
    pub last_modified: String,
    pub size_bytes: u64,
}

/// One file of a duplicated note.
#[derive(Debug)]
pub struct DuplicateFileEntry {
    pub relative_path: String,
    pub last_modified: String,
    pub size_bytes: u64,
}

/// Abstract value of a file of a duplicated note.
pub struct FileEntryView {
    pub relative_path: Seq<char>,
    pub last_modified: Seq<char>,
    pub size_bytes: u64,
}

impl View for DuplicateFileEntry {
    type V = FileEntryView;

    open spec fn view(&self) -> FileEntryView {
        FileEntryView { relative_path: self.relative_path@, last_modified: self.last_modified@, size_bytes: self.size_bytes }
    }
}

/// The views of a list of file entries.
pub open spec fn entry_views(v: Seq<DuplicateFileEntry>) -> Seq<FileEntryView> {
    v.map_values(|e: DuplicateFileEntry| e@)
}

/// Notes that share an identifier: the identifier, the first one's title, and their files.
#[derive(Debug)]
pub struct DuplicateNoteGroup {
    pub note_id: String,
    pub title: String,
    pub files: Vec<DuplicateFileEntry>,
}

/// Abstract value of a duplicate group.
pub struct GroupView {
    pub note_id: Seq<char>,
    pub title: Seq<char>,
    pub files: Seq<FileEntryView>,
}

impl View for DuplicateNoteGroup {
    type V = GroupView;

    open spec fn view(&self) -> GroupView {
        GroupView { note_id: self.note_id@, title: self.title@, files: entry_views(self.files@) }
    }
}

/// The file entry of a scanned note.
pub open spec fn entry_of(n: ScannedNote) -> FileEntryView {
    FileEntryView { relative_path: n.file_path@, last_modified: n.last_modified@, size_bytes: n.size_bytes }
}

/// The identifiers of the notes in order of first appearance.
pub open spec fn distinct_ids(notes: Seq<ScannedNote>) -> Seq<Seq<char>>
    decreases notes.len(),
{
    if notes.len() == 0 {
        Seq::empty()
    } else {
        let rest = distinct_ids(notes.drop_last());
        if rest.contains(notes.last().id@) { rest } else { rest.push(notes.last().id@) }
    }
}

/// The files of the notes with identifier `id`, in order.
pub open spec fn files_of(notes: Seq<ScannedNote>, id: Seq<char>) -> Seq<FileEntryView>
    decreases notes.len(),
{
    if notes.len() == 0 {
        Seq::empty()
    } else {
        let rest = files_of(notes.drop_last(), id);
        if notes.last().id@ == id { rest.push(entry_of(notes.last())) } else { rest }
    }
}

/// Index of the first note with identifier `id` (or the number of notes).
pub open spec fn first_with_id(notes: Seq<ScannedNote>, id: Seq<char>) -> int
    decreases notes.len(),
{
    if notes.len() == 0 {
        0
    } else if notes[0].id@ == id {
        0
    } else {
        1 + first_with_id(notes.drop_first(), id)
    }
}

/// The groups of notes sharing an identifier, in order of first appearance.
pub open spec fn groups_of(notes: Seq<ScannedNote>, ids: Seq<Seq<char>>) -> Seq<GroupView>
    decreases ids.len(),
{
    if ids.len() == 0 {
        Seq::empty()
    } else {
        let rest = groups_of(notes, ids.drop_last());
        let id = ids.last();
        let files = files_of(notes, id);
        if files.len() > 1 {
            rest.push(GroupView { note_id: id, title: notes[first_with_id(notes, id)].title@, files: files })
        } else {
            rest
        }
    }
}

/// `a` comes before or with `b` in code-point (byte-wise UTF-8) order.
pub open spec fn text_le(a: Seq<char>, b: Seq<char>) -> bool
    decreases a.len(),
{
    if a.len() == 0 {
        true
    } else if b.len() == 0 {
        false
    } else if a[0] != b[0] {
        a[0] < b[0]
    } else {
        text_le(a.drop_first(), b.drop_first())
    }
}

/// `x` inserted into a list sorted by title: after every group whose title is not
/// greater (so equal titles keep their order).
pub open spec fn insert_by_title(sorted: Seq<GroupView>, x: GroupView) -> Seq<GroupView>
    decreases sorted.len(),
{
    if sorted.len() == 0 || text_le(sorted.last().title, x.title) {
        sorted.push(x)
    } else {
        insert_by_title(sorted.drop_last(), x).push(sorted.last())
    }
}

/// The groups sorted by title, stably (insertion sort).
pub open spec fn sort_by_title(groups: Seq<GroupView>) -> Seq<GroupView>
    decreases groups.len(),
{
    if groups.len() == 0 {
        Seq::empty()
    } else {
        insert_by_title(sort_by_title(groups.drop_last()), groups.last())
    }
}

/// The duplicated notes of a scan: the groups of two or more notes sharing an
/// identifier, sorted by title.
pub open spec fn duplicates_spec(notes: Seq<ScannedNote>) -> Seq<GroupView> {
    sort_by_title(groups_of(notes, distinct_ids(notes)))
}

proof fn lemma_text_le_total(a: Seq<char>, b: Seq<char>)
    ensures
        text_le(a, b) || text_le(b, a),
    decreases a.len(),
{
    if a.len() > 0 && b.len() > 0 {
        if a[0] == b[0] {
            lemma_text_le_total(a.drop_first(), b.drop_first());
        } else {
            assert(a[0] < b[0] || b[0] < a[0]);
        }
    }
}

proof fn lemma_text_le_trans(a: Seq<char>, b: Seq<char>, c: Seq<char>)
    requires
        text_le(a, b),
        text_le(b, c),
    ensures
        text_le(a, c),
    decreases a.len(),
{
    if a.len() > 0 && b.len() > 0 && c.len() > 0 && a[0] == b[0] && b[0] == c[0] {
        lemma_text_le_trans(a.drop_first(), b.drop_first(), c.drop_first());
    }
}

/// Ordered by title: no group's title comes after that of a group after it.
pub open spec fn titles_ordered(v: Seq<GroupView>) -> bool {
    forall|i: int, j: int| 0 <= i < j < v.len() ==> text_le((#[trigger] v[i]).title, (#[trigger] v[j]).title)
}

proof fn lemma_insert_title(sorted: Seq<GroupView>, x: GroupView)
    requires
        titles_ordered(sorted),
    ensures
        titles_ordered(insert_by_title(sorted, x)),
        insert_by_title(sorted, x).len() == sorted.len() + 1,
        forall|k: int| 0 <= k < insert_by_title(sorted, x).len() ==>
            (#[trigger] insert_by_title(sorted, x)[k]) == x || sorted.contains(insert_by_title(sorted, x)[k]),
    decreases sorted.len(),
{
    let r = insert_by_title(sorted, x);
    if sorted.len() == 0 || text_le(sorted.last().title, x.title) {
        assert forall|i: int, j: int| 0 <= i < j < r.len() implies text_le((#[trigger] r[i]).title, (#[trigger] r[j]).title) by {
            if j == r.len() - 1 {
                assert(r[i] == sorted[i]);
                if i < sorted.len() - 1 {
                    lemma_text_le_trans(sorted[i].title, sorted[sorted.len() - 1].title, x.title);
                }
            } else {
                assert(r[i] == sorted[i] && r[j] == sorted[j]);
            }
        }
        assert forall|k: int| 0 <= k < r.len() implies (#[trigger] r[k]) == x || sorted.contains(r[k]) by {
            if k < sorted.len() {
                assert(r[k] == sorted[k]);
            }
        }
    } else {
        let init = sorted.drop_last();
        let last = sorted.last();
        lemma_text_le_total(last.title, x.title);
        assert(titles_ordered(init));
        lemma_insert_title(init, x);
        let mid = insert_by_title(init, x);
        assert(r == mid.push(last));
        assert forall|i: int, j: int| 0 <= i < j < r.len() implies text_le((#[trigger] r[i]).title, (#[trigger] r[j]).title) by {
            if j == r.len() - 1 {
                assert(r[j] == last);
                assert(r[i] == mid[i]);
                if mid[i] != x {
                    let k = choose|k: int| 0 <= k < init.len() && init[k] == mid[i];
                    assert(init[k] == sorted[k]);
                }
            } else {
                assert(r[i] == mid[i]);
                assert(r[j] == mid[j]);
            }
        }
        assert forall|k: int| 0 <= k < r.len() implies (#[trigger] r[k]) == x || sorted.contains(r[k]) by {
            if k == r.len() - 1 {
                assert(sorted[sorted.len() - 1] == r[k]);
            } else {
                assert(r[k] == mid[k]);
                if mid[k] != x {
                    let q = choose|q: int| 0 <= q < init.len() && init[q] == mid[k];
                    assert(sorted[q] == init[q]);
                }
            }
        }
    }
}

proof fn lemma_sort_titles(groups: Seq<GroupView>)
    ensures
        titles_ordered(sort_by_title(groups)),
    decreases groups.len(),
{
    if groups.len() > 0 {
        lemma_sort_titles(groups.drop_last());
        lemma_insert_title(sort_by_title(groups.drop_last()), groups.last());
    }
}

/// The duplicates of a scan come ordered by title (code-point order), and each group
/// holds two or more files.
pub proof fn law_duplicates_by_title(notes: Seq<ScannedNote>)
    ensures
        titles_ordered(duplicates_spec(notes)),
{
    lemma_sort_titles(groups_of(notes, distinct_ids(notes)));
}

/// `a` is not greater than `b` in code-point order.
fn text_le_exec(a: &[char], b: &[char]) -> (r: bool)
    ensures
        r == text_le(a@, b@),
{
    let mut i: usize = 0;
    assert(a@.skip(0) =~= a@);
    assert(b@.skip(0) =~= b@);
    while i < a.len() && i < b.len() && a[i] == b[i]
        invariant
            i <= a.len(),
            i <= b.len(),
            forall|j: int| 0 <= j < i ==> a@[j] == b@[j],
            text_le(a@, b@) == text_le(a@.skip(i as int), b@.skip(i as int)),
        decreases a.len() - i,
    {
        proof {
            assert(a@.skip(i as int).drop_first() =~= a@.skip(i + 1));
            assert(b@.skip(i as int).drop_first() =~= b@.skip(i + 1));
        }
        i += 1;
    }
    if i == a.len() {
        return true;
    }
    if i == b.len() {
        return false;
    }
    assert(a@.skip(i as int)[0] == a@[i as int]);
    assert(b@.skip(i as int)[0] == b@[i as int]);
    a[i] < b[i]
}

/// The views of duplicate groups.
pub open spec fn group_views(v: Seq<DuplicateNoteGroup>) -> Seq<GroupView> {
    v.map_values(|g: DuplicateNoteGroup| g@)
}

/// Inserts a group into a list sorted by title (see [`insert_by_title`]).
fn insert_group(v: &mut Vec<DuplicateNoteGroup>, x: DuplicateNoteGroup)
    ensures
        group_views(final(v)@) == insert_by_title(group_views(old(v)@), x@),
    decreases old(v)@.len(),
{
    let ghost before = group_views(v@);
    if v.len() == 0 {
        v.push(x);
        assert(group_views(v@) =~= before.push(x@));
        return;
    }
    let lt = chars_of(v[v.len() - 1].title.as_str());
    let xt = chars_of(x.title.as_str());
    assert(before.last() == v@[v.len() - 1]@);
    if text_le_exec(&lt, &xt) {
        v.push(x);
        assert(group_views(v@) =~= before.push(x@));
    } else {
        let last = v.pop().unwrap();
        assert(group_views(v@) =~= before.drop_last());
        insert_group(v, x);
        let ghost mid = group_views(v@);
        v.push(last);
        assert(group_views(v@) =~= mid.push(last@));
    }
}

/// The files of the notes with identifier `id`.
fn files_with_id(notes: &Vec<ScannedNote>, id: &str) -> (r: Vec<DuplicateFileEntry>)
    ensures
        entry_views(r@) == files_of(notes@, id@),
{
    let mut out: Vec<DuplicateFileEntry> = Vec::new();
    let mut i: usize = 0;
    while i < notes.len()
        invariant
            i <= notes.len(),
            entry_views(out@) == files_of(notes@.take(i as int), id@),
        decreases notes.len() - i,
    {
        proof {
            assert(notes@.take(i + 1).drop_last() =~= notes@.take(i as int));
        }
        if crate::models::str_eq(notes[i].id.as_str(), id) {
            let ghost before = out@;
            let e = DuplicateFileEntry {
                relative_path: notes[i].file_path.clone(),
                last_modified: notes[i].last_modified.clone(),
                size_bytes: notes[i].size_bytes,
            };
            out.push(e);
            proof {
                assert(entry_views(out@) =~= entry_views(before).push(entry_of(notes@[i as int])));
            }
        }
        i += 1;
    }
    assert(notes@.take(notes.len() as int) =~= notes@);
    out
}

proof fn lemma_first_with_id(notes: Seq<ScannedNote>, id: Seq<char>, i: int)
    requires
        0 <= i < notes.len(),
        notes[i].id@ == id,
        forall|j: int| 0 <= j < i ==> (#[trigger] notes[j]).id@ != id,
    ensures
        first_with_id(notes, id) == i,
    decreases i,
{
    if i > 0 {
        assert forall|j: int| 0 <= j < i - 1 implies (#[trigger] notes.drop_first()[j]).id@ != id by {
            assert(notes.drop_first()[j] == notes[j + 1]);
        }
        lemma_first_with_id(notes.drop_first(), id, i - 1);
    }
}

proof fn lemma_distinct_ids_member(notes: Seq<ScannedNote>, k: int)
    requires
        0 <= k < distinct_ids(notes).len(),
    ensures
        exists|i: int| 0 <= i < notes.len() && (#[trigger] notes[i]).id@ == distinct_ids(notes)[k],
    decreases notes.len(),
{
    let rest = distinct_ids(notes.drop_last());
    if k < rest.len() {
        lemma_distinct_ids_member(notes.drop_last(), k);
        let i = choose|i: int| 0 <= i < notes.drop_last().len() && (#[trigger] notes.drop_last()[i]).id@ == rest[k];
        assert(notes[i] == notes.drop_last()[i]);
    } else {
        assert(notes[notes.len() - 1].id@ == distinct_ids(notes)[k]);
    }
}

/// The title of the first note with identifier `id`, which some note has.
fn first_title(notes: &Vec<ScannedNote>, id: &str) -> (r: String)
    requires
        exists|i: int| 0 <= i < notes@.len() && (#[trigger] notes@[i]).id@ == id@,
    ensures
        r@ == notes@[first_with_id(notes@, id@)].title@,
{
    let mut i: usize = 0;
    while i < notes.len()
        invariant
            i <= notes.len(),
            exists|k: int| 0 <= k < notes@.len() && (#[trigger] notes@[k]).id@ == id@,
            forall|j: int| 0 <= j < i ==> (#[trigger] notes@[j]).id@ != id@,
        decreases notes.len() - i,
    {
        if crate::models::str_eq(notes[i].id.as_str(), id) {
            proof {
                lemma_first_with_id(notes@, id@, i as int);
            }
            return notes[i].title.clone();
        }
        i += 1;
    }
    proof {
        let k = choose|k: int| 0 <= k < notes@.len() && (#[trigger] notes@[k]).id@ == id@;
        assert(notes@[k].id@ != id@);
    }
    String::new()
}

/// The duplicated notes of a scan (see [`duplicates_spec`]).
pub fn duplicate_groups(notes: &Vec<ScannedNote>) -> (r: Vec<DuplicateNoteGroup>)
    ensures
        group_views(r@) == duplicates_spec(notes@),
{
    let mut ids: Vec<String> = Vec::new();
    let mut i: usize = 0;
    while i < notes.len()
        invariant
            i <= notes.len(),
            strings_view(ids@) == distinct_ids(notes@.take(i as int)),
        decreases notes.len() - i,
    {
        proof {
            assert(notes@.take(i + 1).drop_last() =~= notes@.take(i as int));
        }
        if !crate::notes::holds_text(&ids, notes[i].id.as_str()) {
            let ghost before = ids@;
            ids.push(notes[i].id.clone());
            proof {
                assert(strings_view(ids@) =~= strings_view(before).push(notes@[i as int].id@));
            }
        }
        i += 1;
    }
    assert(notes@.take(notes.len() as int) =~= notes@);
    let ghost iv = strings_view(ids@);
    let mut groups: Vec<DuplicateNoteGroup> = Vec::new();
    let mut k: usize = 0;
    while k < ids.len()
        invariant
            k <= ids.len(),
            iv == strings_view(ids@),
            iv == distinct_ids(notes@),
            group_views(groups@) == groups_of(notes@, iv.take(k as int)),
        decreases ids.len() - k,
    {
        proof {
            assert(iv.take(k + 1).drop_last() =~= iv.take(k as int));
            assert(iv.take(k + 1).last() == ids@[k as int]@);
        }
        let files = files_with_id(notes, ids[k].as_str());
        if files.len() > 1 {
            proof {
                lemma_distinct_ids_member(notes@, k as int);
            }
            let title = first_title(notes, ids[k].as_str());
            let g = DuplicateNoteGroup { note_id: ids[k].clone(), title, files };
            let ghost before = groups@;
            let ghost gv = g@;
            groups.push(g);
            proof {
                assert(group_views(groups@) =~= group_views(before).push(gv));
            }
        }
        k += 1;
    }
    assert(iv.take(ids.len() as int) =~= iv);
    let ghost unsorted = group_views(groups@);
    let mut sorted: Vec<DuplicateNoteGroup> = Vec::new();
    let mut rest = groups;
    let n = rest.len();
    let mut j: usize = 0;
    while j < n
        invariant
            j <= n,
            n == unsorted.len(),
            rest@.len() == n - j,
            group_views(rest@) == unsorted.skip(j as int),
            group_views(sorted@) == sort_by_title(unsorted.take(j as int)),
        decreases n - j,
    {
        let ghost rb = rest@;
        let g = rest.remove(0);
        proof {
            assert(group_views(rb)[0] == rb[0]@);
            assert(unsorted.skip(j as int)[0] == unsorted[j as int]);
            assert(g@ == unsorted[j as int]);
            assert(rest@ =~= rb.subrange(1, rb.len() as int));
            assert forall|t: int| 0 <= t < rest@.len() implies group_views(rest@)[t] == unsorted.skip(j + 1)[t] by {
                assert(rest@[t] == rb[t + 1]);
                assert(group_views(rb)[t + 1] == unsorted.skip(j as int)[t + 1]);
            }
            assert(group_views(rest@) =~= unsorted.skip(j + 1));
            assert(unsorted.take(j + 1).drop_last() =~= unsorted.take(j as int));
        }
        insert_group(&mut sorted, g);
        j += 1;
    }
    assert(unsorted.take(n as int) =~= unsorted);
    sorted
}


/// What `str::parse::<i64>` gives: an optional sign and at least one digit, whose value
/// fits in 64 signed bits.
pub open spec fn parse_i64_spec(s: Seq<char>) -> Option<i64> {
    if s.len() > 0 && s[0] == '-' {
        let d = s.skip(1);
        if d.len() > 0 && crate::webdav::all_digits(d) && crate::webdav::decimal_value(d) <= 0x8000_0000_0000_0000 {
            Some((-crate::webdav::decimal_value(d)) as i64)
        } else {
            None
        }
    } else {
        let d = if s.len() > 0 && s[0] == '+' { s.skip(1) } else { s };
        if d.len() > 0 && crate::webdav::all_digits(d) && crate::webdav::decimal_value(d) <= 0x7fff_ffff_ffff_ffff {
            Some(crate::webdav::decimal_value(d) as i64)
        } else {
            None
        }
    }
}

/// `str::parse::<i64>` (see [`parse_i64_spec`]).
pub fn parse_i64(s: &[char]) -> (r: Option<i64>)
    ensures
        r == parse_i64_spec(s@),
{
    if s.len() > 0 && s[0] == '-' {
        let d = crate::paths::tail_from(s, 1);
        let r = match crate::webdav::parse_decimal(&d) {
            Some(v) => {
                proof {
                    crate::webdav::lemma_decimal_nonneg(d@);
                }
                if v < 0x8000_0000_0000_0000u64 {
                    assert(crate::webdav::decimal_value(d@) == v as int);
                    assert(d@ == s@.skip(1));
                    let n: i64 = -(v as i64);
                    assert(n as int == -(v as int));
                    assert((-(v as int)) as i64 == n);
                    Some(n)
                } else if v == 0x8000_0000_0000_0000u64 {
                    assert(d@ == s@.skip(1));
                    assert((-(v as int)) as i64 == i64::MIN);
                    Some(i64::MIN)
                } else {
                    None
                }
            },
            None => None,
        };
        r
    } else {
        let start: usize = if s.len() > 0 && s[0] == '+' { 1 } else { 0 };
        let d = crate::paths::tail_from(s, start);
        proof {
            if start == 0 {
                assert(d@ =~= s@);
            }
        }
        match crate::webdav::parse_decimal(&d) {
            Some(v) => {
                proof {
                    crate::webdav::lemma_decimal_nonneg(d@);
                }
                if v <= 0x7fff_ffff_ffff_ffffu64 { Some(v as i64) } else { None }
            },
            None => None,
        }
    }
}

/// The note a history file belongs to: names split at `_` into at least three pieces
/// whose first is a ULID; the note's canonical identifier, the first piece and the second
/// (the snapshot's local date and time).
pub open spec fn history_remnant_spec(name: Seq<char>) -> Option<(Seq<char>, Seq<char>, Seq<char>)> {
    let p = pieces(name, '_');
    if p.len() >= 3 && crate::ulid::is_ulid_text(p[0]) {
        Some((canonical_ulid(p[0])->0, p[0], p[1]))
    } else {
        None
    }
}

/// A history file name taken apart.
#[derive(Debug)]
pub struct HistoryName {
    pub note_id: String,
    pub id_text: String,
    pub date_text: String,
}

/// Takes a history file name apart (see [`history_remnant_spec`]).
pub fn history_remnant_name(name: &str) -> (r: Option<HistoryName>)
    ensures
        match r {
            Some(h) => history_remnant_spec(name@) == Some((h.note_id@, h.id_text@, h.date_text@)),
            None => history_remnant_spec(name@) is None,
        },
{
    let c = chars_of(name);
    let parts = split_on(&c, '_');
    let ghost pv = parts@.map_values(|q: Vec<char>| q@);
    if parts.len() < 3 {
        return None;
    }
    assert(pv[0] == parts@[0]@ && pv[1] == parts@[1]@);
    let first = string_of(&parts[0]);
    match parse_ulid(first.as_str()) {
        Some(id) => Some(HistoryName { note_id: id, id_text: first, date_text: string_of(&parts[1]) }),
        None => None,
    }
}

/// The note a conflict file belongs to: the stem split at `_`, its first piece a ULID;
/// the note's canonical identifier and, when there is a second piece that parses, the
/// time of the conflict in seconds.
pub open spec fn conflict_remnant_spec(stem: Seq<char>) -> Option<(Seq<char>, Option<i64>)> {
    let p = pieces(stem, '_');
    if crate::ulid::is_ulid_text(p[0]) {
        Some((canonical_ulid(p[0])->0, if p.len() >= 2 { parse_i64_spec(p[1]) } else { None }))
    } else {
        None
    }
}

/// Takes a conflict file stem apart (see [`conflict_remnant_spec`]).
pub fn conflict_remnant_name(stem: &str) -> (r: Option<(String, Option<i64>)>)
    ensures
        match r {
            Some((id, ts)) => conflict_remnant_spec(stem@) == Some((id@, ts)),
            None => conflict_remnant_spec(stem@) is None,
        },
{
    let c = chars_of(stem);
    let parts = split_on(&c, '_');
    let ghost pv = parts@.map_values(|q: Vec<char>| q@);
    assert(pv[0] == parts@[0]@);
    let first = string_of(&parts[0]);
    match parse_ulid(first.as_str()) {
        Some(id) => {
            let ts = if parts.len() >= 2 {
                assert(pv[1] == parts@[1]@);
                parse_i64(&parts[1])
            } else {
                None
            };
            Some((id, ts))
        },
        None => None,
    }
}

/// `true` when `id` is among the known note identifiers.
pub fn is_known_note(known: &Vec<String>, id: &str) -> (r: bool)
    ensures
        r == strings_view(known@).contains(id@),
{
    crate::notes::holds_text(known, id)
}

/// The title shown for an orphaned history file: its frontmatter title, else
/// `History Snapshot (<id>)`; with ` (Geçmiş: <time>)` when its time is known.
pub open spec fn history_title_spec(front_title: Option<Seq<char>>, id_text: Seq<char>, time: Option<Seq<char>>) -> Seq<char> {
    let base = match front_title {
        Some(t) => t,
        None => seq!['H', 'i', 's', 't', 'o', 'r', 'y', ' ', 'S', 'n', 'a', 'p', 's', 'h', 'o', 't', ' ', '('] + id_text + seq![')'],
    };
    match time {
        Some(t) => base + seq![' ', '(', 'G', 'e', '\u{e7}', 'm', 'i', '\u{15f}', ':', ' '] + t + seq![')'],
        None => base,
    }
}

/// The title shown for an orphaned history file (see [`history_title_spec`]).
pub fn history_remnant_title(front_title: &Option<String>, id_text: &str, time: &Option<String>) -> (r: String)
    ensures
        r@ == history_title_spec(crate::models::opt_view(*front_title), id_text@, crate::models::opt_view(*time)),
{
    let mut out: Vec<char> = match front_title {
        Some(t) => chars_of(t.as_str()),
        None => {
            let mut v = vec!['H', 'i', 's', 't', 'o', 'r', 'y', ' ', 'S', 'n', 'a', 'p', 's', 'h', 'o', 't', ' ', '('];
            let i = chars_of(id_text);
            extend_chars(&mut v, &i);
            v.push(')');
            v
        },
    };
    match time {
        Some(t) => {
            let h = [' ', '(', 'G', 'e', '\u{e7}', 'm', 'i', '\u{15f}', ':', ' '];
            extend_chars(&mut out, &h);
            let tc = chars_of(t.as_str());
            extend_chars(&mut out, &tc);
            out.push(')');
        },
        None => {},
    }
    string_of(&out)
}

/// The text `%Y-%m-%d %H:%M:%S` of a UTC instant given in whole seconds (`None` where
/// chrono cannot represent it).
pub uninterp spec fn utc_seconds_text(secs: i64) -> Option<Seq<char>>;

/// chrono's `DateTime::from_timestamp(secs, 0)` formatted as `%Y-%m-%d %H:%M:%S`.
/// Claimed: the result is the named text.
#[verifier::external_body]
fn format_utc_seconds(secs: i64) -> (r: Option<String>)
    ensures
        crate::models::opt_view(r) == utc_seconds_text(secs),
{
    match chrono::DateTime::from_timestamp(secs, 0) {
        Some(d) => Some(d.format("%Y-%m-%d %H:%M:%S").to_string()),
        None => None,
    }
}

/// The title shown for an orphaned conflict file: its frontmatter title, else
/// `Conflict Version`; with ` (Çakışma: <UTC time>)` when its time is known.
pub open spec fn conflict_title_spec(front_title: Option<Seq<char>>, secs: Option<i64>) -> Seq<char> {
    let base = match front_title {
        Some(t) => t,
        None => seq!['C', 'o', 'n', 'f', 'l', 'i', 'c', 't', ' ', 'V', 'e', 'r', 's', 'i', 'o', 'n'],
    };
    match secs {
        Some(s) => match utc_seconds_text(s) {
            Some(t) => base + seq![' ', '(', '\u{c7}', 'a', 'k', '\u{131}', '\u{15f}', 'm', 'a', ':', ' '] + t + seq![')'],
            None => base,
        },
        None => base,
    }
}

/// The title shown for an orphaned conflict file (see [`conflict_title_spec`]).
pub fn conflict_remnant_title(front_title: &Option<String>, secs: Option<i64>) -> (r: String)
    ensures
        r@ == conflict_title_spec(crate::models::opt_view(*front_title), secs),
{
    let mut out: Vec<char> = match front_title {
        Some(t) => chars_of(t.as_str()),
        None => vec!['C', 'o', 'n', 'f', 'l', 'i', 'c', 't', ' ', 'V', 'e', 'r', 's', 'i', 'o', 'n'],
    };
    match secs {
        Some(s) => match format_utc_seconds(s) {
            Some(t) => {
                let h = [' ', '(', '\u{c7}', 'a', 'k', '\u{131}', '\u{15f}', 'm', 'a', ':', ' '];
                extend_chars(&mut out, &h);
                let tc = chars_of(t.as_str());
                extend_chars(&mut out, &tc);
                out.push(')');
            },
            None => {},
        },
        None => {},
    }
    string_of(&out)
}

/// An orphaned history or conflict file.
#[derive(Debug)]
pub struct OrphanedFile {
    pub relative_path: String,
    pub title: String,
    pub size_bytes: u64,
    pub last_modified: String,
    pub file_type: String,
}

/// The orphaned files found and the bytes deleting them recovers.
#[derive(Debug)]
pub struct OrphanedRemnants {
    pub files: Vec<OrphanedFile>,
    pub total_recovered_bytes: u64,
}

impl OrphanedRemnants {
    /// Nothing found.
    pub fn new() -> (r: OrphanedRemnants)
        ensures
            r.files@.len() == 0,
            r.total_recovered_bytes == 0,
    {
        OrphanedRemnants { files: Vec::new(), total_recovered_bytes: 0 }
    }

    /// Records one more orphaned file; its size adds to the recovered bytes.
    pub fn add(&mut self, file: OrphanedFile)
        requires
            old(self).total_recovered_bytes + file.size_bytes <= u64::MAX,
        ensures
            final(self).files@ == old(self).files@.push(file),
            final(self).total_recovered_bytes == old(self).total_recovered_bytes + file.size_bytes,
    {
        self.total_recovered_bytes = self.total_recovered_bytes + file.size_bytes;
        self.files.push(file);
    }
}


/// A file found in `.noda/history` or `.noda/conflicts`: its name, size, modification
/// time, and the title in its frontmatter when it has one.
#[derive(Debug)]
pub struct ListedFile {
    pub name: String,
    pub size_bytes: u64,
    pub modified: Timestamp,
    pub front_title: Option<String>,
}

/// An orphaned file as the listing shows it: path, title, size, modification time and
/// kind.
pub struct RemnantView {
    pub path: Seq<char>,
    pub title: Seq<char>,
    pub size: u64,
    pub modified: Seq<char>,
    pub kind: Seq<char>,
}

/// The listed view of each orphaned file.
pub open spec fn remnant_views(v: Seq<OrphanedFile>) -> Seq<RemnantView> {
    v.map_values(|f: OrphanedFile| RemnantView {
        path: f.relative_path@,
        title: f.title@,
        size: f.size_bytes,
        modified: f.last_modified@,
        kind: f.file_type@,
    })
}

/// `true` for a Markdown file name (extension `md`).
pub open spec fn md_file(name: Seq<char>) -> bool {
    path_extension(name) == Some(seq!['m', 'd'])
}

/// `.noda/history/`
pub open spec fn history_prefix_text() -> Seq<char> {
    seq!['.', 'n', 'o', 'd', 'a', '/', 'h', 'i', 's', 't', 'o', 'r', 'y', '/']
}

/// `.noda/conflicts/`
pub open spec fn conflicts_prefix_text() -> Seq<char> {
    seq!['.', 'n', 'o', 'd', 'a', '/', 'c', 'o', 'n', 'f', 'l', 'i', 'c', 't', 's', '/']
}

/// The listing of a history file, given the local instant of its date (when chrono
/// reads it): a Markdown file of a note that is not known, titled as
/// [`history_title_spec`] says with that instant's UTC time.
pub open spec fn history_remnant(f: ListedFile, known: Seq<Seq<char>>, time: Option<Timestamp>) -> Option<RemnantView> {
    if md_file(f.name@) {
        match history_remnant_spec(f.name@) {
            Some((id, id_text, _)) => if known.contains(id) {
                None
            } else {
                Some(RemnantView {
                    path: history_prefix_text() + f.name@,
                    title: history_title_spec(crate::models::opt_view(f.front_title), id_text,
                        match time { Some(t) => utc_seconds_text(t.secs), None => None }),
                    size: f.size_bytes,
                    modified: rfc3339_text(f.modified.secs, f.modified.nanos),
                    kind: seq!['h', 'i', 's', 't', 'o', 'r', 'y'],
                })
            },
            None => None,
        }
    } else {
        None
    }
}

/// The listing of a conflict file: a Markdown file of a note that is not known, titled
/// as [`conflict_title_spec`] says.
pub open spec fn conflict_remnant(f: ListedFile, known: Seq<Seq<char>>) -> Option<RemnantView> {
    if md_file(f.name@) {
        match conflict_remnant_spec(file_stem_of(f.name@)) {
            Some((id, secs)) => if known.contains(id) {
                None
            } else {
                Some(RemnantView {
                    path: conflicts_prefix_text() + f.name@,
                    title: conflict_title_spec(crate::models::opt_view(f.front_title), secs),
                    size: f.size_bytes,
                    modified: rfc3339_text(f.modified.secs, f.modified.nanos),
                    kind: seq!['c', 'o', 'n', 'f', 'l', 'i', 'c', 't'],
                })
            },
            None => None,
        }
    } else {
        None
    }
}

/// The orphaned history files among `h`, in order, with the local instants `times` of
/// their dates.
pub open spec fn history_remnants(h: Seq<ListedFile>, known: Seq<Seq<char>>, times: Seq<Option<Timestamp>>) -> Seq<RemnantView>
    decreases h.len(),
{
    if h.len() == 0 {
        Seq::empty()
    } else {
        let rest = history_remnants(h.drop_last(), known, times);
        match history_remnant(h.last(), known, times[h.len() - 1]) {
            Some(v) => rest.push(v),
            None => rest,
        }
    }
}

/// The orphaned conflict files among `c`, in order.
pub open spec fn conflict_remnants(c: Seq<ListedFile>, known: Seq<Seq<char>>) -> Seq<RemnantView>
    decreases c.len(),
{
    if c.len() == 0 {
        Seq::empty()
    } else {
        let rest = conflict_remnants(c.drop_last(), known);
        match conflict_remnant(c.last(), known) {
            Some(v) => rest.push(v),
            None => rest,
        }
    }
}

/// `times` holds, for each Markdown history file, an instant exactly where its name's
/// date text is one chrono reads.
pub open spec fn instants_fit(h: Seq<ListedFile>, times: Seq<Option<Timestamp>>) -> bool {
    &&& times.len() == h.len()
    &&& forall|i: int| 0 <= i < h.len() && md_file(h[i].name@) ==> (#[trigger] history_remnant_spec(h[i].name@) matches Some((_, _, d))
        ==> (times[i] is Some <==> snapshot_date_parses(d)))
}

/// The total size of some files.
pub open spec fn total_size(v: Seq<ListedFile>) -> int
    decreases v.len(),
{
    if v.len() == 0 { 0 } else { total_size(v.drop_last()) + v.last().size_bytes }
}

/// The total size of some orphaned files.
pub open spec fn remnant_size(v: Seq<OrphanedFile>) -> int
    decreases v.len(),
{
    if v.len() == 0 { 0 } else { remnant_size(v.drop_last()) + v.last().size_bytes }
}

fn listed_title(f: &ListedFile) -> (r: Option<String>)
    ensures
        crate::models::opt_view(r) == crate::models::opt_view(f.front_title),
{
    crate::models::copy_opt(&f.front_title)
}

fn is_md_name(name: &str) -> (r: bool)
    ensures
        r == md_file(name@),
{
    match extension_of(name) {
        Some(e) => {
            let ec = chars_of(e.as_str());
            let md = ['m', 'd'];
            assert(md@ =~= seq!['m', 'd']);
            crate::text::chars_eq(ec.as_slice(), &md)
        },
        None => false,
    }
}

fn prefixed(prefix: &[char], name: &str) -> (r: String)
    ensures
        r@ == prefix@ + name@,
{
    let mut v: Vec<char> = Vec::new();
    extend_chars(&mut v, prefix);
    let n = chars_of(name);
    extend_chars(&mut v, &n);
    assert(v@ =~= prefix@ + name@);
    string_of(&v)
}

proof fn lemma_total_size_prefix(v: Seq<ListedFile>, n: int)
    requires
        0 <= n <= v.len(),
    ensures
        0 <= total_size(v.take(n)) <= total_size(v),
    decreases v.len(),
{
    if n < v.len() {
        lemma_total_size_prefix(v.drop_last(), n);
        assert(v.drop_last().take(n) =~= v.take(n));
    } else {
        assert(v.take(n) =~= v);
        lemma_total_size_nonneg(v);
    }
}

proof fn lemma_total_size_nonneg(v: Seq<ListedFile>)
    ensures
        total_size(v) >= 0,
    decreases v.len(),
{
    if v.len() > 0 {
        lemma_total_size_nonneg(v.drop_last());
    }
}

proof fn lemma_history_remnants_times(h: Seq<ListedFile>, known: Seq<Seq<char>>, t1: Seq<Option<Timestamp>>, t2: Seq<Option<Timestamp>>)
    requires
        h.len() <= t1.len(),
        h.len() <= t2.len(),
        forall|k: int| 0 <= k < h.len() ==> t1[k] == t2[k],
    ensures
        history_remnants(h, known, t1) == history_remnants(h, known, t2),
    decreases h.len(),
{
    if h.len() > 0 {
        lemma_history_remnants_times(h.drop_last(), known, t1, t2);
    }
}

/// The orphaned history and conflict files: those of `history` and then those of
/// `conflicts` (the files of `.noda/history` and `.noda/conflicts`) that are Markdown
/// files of notes whose identifier is not in `known` (the vault's notes and the trash's).
/// History files are titled with the UTC time of the local instant their name gives
/// ([`local_snapshot_instant`], which depends on the machine's time zone); every file
/// carries its path, size, RFC 3339 modification time and kind; the recovered bytes are
/// the sum of their sizes.
pub fn orphaned_remnants(history: &Vec<ListedFile>, conflicts: &Vec<ListedFile>, known: &Vec<String>) -> (r: OrphanedRemnants)
    requires
        total_size(history@) + total_size(conflicts@) <= u64::MAX,
    ensures
        exists|times: Seq<Option<Timestamp>>| {
            &&& instants_fit(history@, times)
            &&& remnant_views(r.files@) == #[trigger] history_remnants(history@, strings_view(known@), times)
                + conflict_remnants(conflicts@, strings_view(known@))
        },
        r.total_recovered_bytes == remnant_size(r.files@),
{
    let ghost kv = strings_view(known@);
    let mut found = OrphanedRemnants::new();
    let ghost mut times: Seq<Option<Timestamp>> = Seq::empty();
    let hp = ['.', 'n', 'o', 'd', 'a', '/', 'h', 'i', 's', 't', 'o', 'r', 'y', '/'];
    let cp = ['.', 'n', 'o', 'd', 'a', '/', 'c', 'o', 'n', 'f', 'l', 'i', 'c', 't', 's', '/'];
    assert(hp@ =~= history_prefix_text());
    assert(cp@ =~= conflicts_prefix_text());
    proof {
        lemma_total_size_nonneg(history@);
        lemma_total_size_nonneg(conflicts@);
        assert(history@.take(0) =~= Seq::<ListedFile>::empty());
        assert(remnant_views(found.files@) =~= Seq::<RemnantView>::empty());
    }
    let mut i: usize = 0;
    while i < history.len()
        invariant
            i <= history@.len(),
            kv == strings_view(known@),
            hp@ == history_prefix_text(),
            times.len() == i,
            instants_fit(history@.take(i as int), times),
            remnant_views(found.files@) == history_remnants(history@.take(i as int), kv, times),
            found.total_recovered_bytes == remnant_size(found.files@),
            remnant_size(found.files@) <= total_size(history@.take(i as int)),
            total_size(history@) + total_size(conflicts@) <= u64::MAX,
            total_size(conflicts@) >= 0,
        decreases history.len() - i,
    {
        let f = &history[i];
        let ghost before = found.files@;
        let ghost hb = history@.take(i as int);
        let ghost hn = history@.take(i + 1);
        let ghost old_times = times;
        proof {
            assert(hn.drop_last() =~= hb);
            assert(hn.last() == *f);
            lemma_total_size_prefix(history@, i + 1);
            lemma_total_size_nonneg(hb);
        }
        let mut time: Option<Timestamp> = None;
        let mut listed: Option<OrphanedFile> = None;
        if is_md_name(f.name.as_str()) {
            match history_remnant_name(f.name.as_str()) {
                Some(h) => {
                    time = local_snapshot_instant(h.date_text.as_str());
                    if !is_known_note(known, h.note_id.as_str()) {
                        let t = match time {
                            Some(ts) => format_utc_seconds(ts.secs),
                            None => None,
                        };
                        let title = history_remnant_title(&listed_title(f), h.id_text.as_str(), &t);
                        listed = Some(OrphanedFile {
                            relative_path: prefixed(&hp, f.name.as_str()),
                            title,
                            size_bytes: f.size_bytes,
                            last_modified: format_rfc3339(f.modified),
                            file_type: string_of(&['h', 'i', 's', 't', 'o', 'r', 'y']),
                        });
                    }
                },
                None => {},
            }
        }
        proof {
            times = old_times.push(time);
            lemma_history_remnants_times(hb, kv, old_times, times);
            assert forall|k: int| 0 <= k < hn.len() && md_file(hn[k].name@) implies (#[trigger] history_remnant_spec(hn[k].name@) matches Some((_, _, d))
                ==> (times[k] is Some <==> snapshot_date_parses(d))) by {
                if k < i {
                    assert(hn[k] == hb[k]);
                    assert(times[k] == old_times[k]);
                }
            }
        }
        match listed {
            Some(o) => {
                let ghost ov = o;
                found.add(o);
                proof {
                    assert(found.files@.drop_last() =~= before);
                    assert(remnant_views(found.files@) =~= remnant_views(before).push(remnant_views(found.files@).last()));
                }
            },
            None => {},
        }
        i += 1;
    }
    let ghost hv = history_remnants(history@, kv, times);
    proof {
        assert(history@.take(history@.len() as int) =~= history@);
        assert(conflicts@.take(0) =~= Seq::<ListedFile>::empty());
        assert(hv + conflict_remnants(conflicts@.take(0), kv) =~= hv);
    }
    let mut j: usize = 0;
    while j < conflicts.len()
        invariant
            j <= conflicts@.len(),
            kv == strings_view(known@),
            cp@ == conflicts_prefix_text(),
            remnant_views(found.files@) == hv + conflict_remnants(conflicts@.take(j as int), kv),
            found.total_recovered_bytes == remnant_size(found.files@),
            remnant_size(found.files@) <= total_size(history@) + total_size(conflicts@.take(j as int)),
            total_size(history@) + total_size(conflicts@) <= u64::MAX,
        decreases conflicts.len() - j,
    {
        let f = &conflicts[j];
        let ghost before = found.files@;
        let ghost cb = conflicts@.take(j as int);
        let ghost cn = conflicts@.take(j + 1);
        proof {
            assert(cn.drop_last() =~= cb);
            assert(cn.last() == *f);
            lemma_total_size_prefix(conflicts@, j + 1);
        }
        if is_md_name(f.name.as_str()) {
            let nc = chars_of(f.name.as_str());
            let stem = string_of(&file_stem(&nc));
            match conflict_remnant_name(stem.as_str()) {
                Some((id, secs)) => {
                    if !is_known_note(known, id.as_str()) {
                        let title = conflict_remnant_title(&listed_title(f), secs);
                        let o = OrphanedFile {
                            relative_path: prefixed(&cp, f.name.as_str()),
                            title,
                            size_bytes: f.size_bytes,
                            last_modified: format_rfc3339(f.modified),
                            file_type: string_of(&['c', 'o', 'n', 'f', 'l', 'i', 'c', 't']),
                        };
                        found.add(o);
                        proof {
                            assert(found.files@.drop_last() =~= before);
                            assert(remnant_views(found.files@) =~= remnant_views(before).push(remnant_views(found.files@).last()));
                        }
                    }
                },
                None => {},
            }
        }
        proof {
            assert(hv + conflict_remnants(cn, kv) =~= hv + conflict_remnants(cb, kv) + match conflict_remnant(*f, kv) {
                Some(v) => seq![v],
                None => Seq::empty(),
            });
        }
        j += 1;
    }
    proof {
        assert(conflicts@.take(conflicts@.len() as int) =~= conflicts@);
    }
    found
}

} // verus!
