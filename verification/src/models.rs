//! Domain values of the vault: notes, remote WebDAV entries and the tracked sync state.
use vstd::prelude::*;
use crate::time::Timestamp;

verus! {

/// The characters of every string of a vector.
pub open spec fn strings_view(v: Seq<String>) -> Seq<Seq<char>> {
    v.map_values(|s: String| s@)
}

/// The characters of an optional string.
pub open spec fn opt_view(o: Option<String>) -> Option<Seq<char>> {
    match o {
        Some(s) => Some(s@),
        None => None,
    }
}

/// Copies an optional string.
pub fn copy_opt(o: &Option<String>) -> (r: Option<String>)
    ensures
        opt_view(r) == opt_view(*o),
{
    match o {
        Some(s) => Some(s.clone()),
        None => None,
    }
}

/// Copies a vector of strings.
pub fn copy_strings(v: &Vec<String>) -> (r: Vec<String>)
    ensures
        strings_view(r@) == strings_view(v@),
        r@.len() == v@.len(),
{
    let mut r: Vec<String> = Vec::new();
    let mut i: usize = 0;
    while i < v.len()
        invariant
            i <= v.len(),
            r@.len() == i,
            forall|j: int| 0 <= j < i ==> r@[j]@ == v@[j]@,
        decreases v.len() - i,
    {
        r.push(v[i].clone());
        i += 1;
    }
    assert(strings_view(r@) =~= strings_view(v@));
    r
}

/// Unique identifier of a note: the canonical text of its ULID.
#[derive(Debug)]
pub struct NoteId(pub String);

/// The core entity: a single Markdown note with its frontmatter fields.
#[derive(Debug)]
pub struct Note {
    pub id: NoteId,
    pub parent_id: Option<NoteId>,
    pub title: String,
    pub body: String,
    pub color: Option<String>,
    pub pinned: bool,
    pub tags: Vec<String>,
    pub inline_tags: Vec<String>,
    pub status: String,
    pub created_at: Timestamp,
    pub updated_at: Timestamp,
    pub file_path: String,
    pub is_encrypted: bool,
    pub dek_encrypted: Option<String>,
    pub dek_nonce: Option<String>,
}

/// Abstract value of a note.
#[verifier::ext_equal]
pub struct NoteView {
    pub id: Seq<char>,
    pub parent_id: Option<Seq<char>>,
    pub title: Seq<char>,
    pub body: Seq<char>,
    pub color: Option<Seq<char>>,
    pub pinned: bool,
    pub tags: Seq<Seq<char>>,
    pub inline_tags: Seq<Seq<char>>,
    pub status: Seq<char>,
    pub created_at: Timestamp,
    pub updated_at: Timestamp,
    pub file_path: Seq<char>,
    pub is_encrypted: bool,
    pub dek_encrypted: Option<Seq<char>>,
    pub dek_nonce: Option<Seq<char>>,
}

impl View for Note {
    type V = NoteView;

    open spec fn view(&self) -> NoteView {
        NoteView {
            id: self.id.0@,
            parent_id: match self.parent_id {
                Some(p) => Some(p.0@),
                None => None,
            },
            title: self.title@,
            body: self.body@,
            color: opt_view(self.color),
            pinned: self.pinned,
            tags: strings_view(self.tags@),
            inline_tags: strings_view(self.inline_tags@),
            status: self.status@,
            created_at: self.created_at,
            updated_at: self.updated_at,
            file_path: self.file_path@,
            is_encrypted: self.is_encrypted,
            dek_encrypted: opt_view(self.dek_encrypted),
            dek_nonce: opt_view(self.dek_nonce),
        }
    }
}

impl NoteId {
    /// Copies the identifier.
    pub fn copy(&self) -> (r: NoteId)
        ensures
            r.0@ == self.0@,
    {
        NoteId(self.0.clone())
    }
}

impl Note {
    /// Copies the note.
    pub fn copy(&self) -> (r: Note)
        ensures
            r@ == self@,
    {
        let parent_id = match &self.parent_id {
            Some(p) => Some(p.copy()),
            None => None,
        };
        Note {
            id: self.id.copy(),
            parent_id,
            title: self.title.clone(),
            body: self.body.clone(),
            color: copy_opt(&self.color),
            pinned: self.pinned,
            tags: copy_strings(&self.tags),
            inline_tags: copy_strings(&self.inline_tags),
            status: self.status.clone(),
            created_at: self.created_at,
            updated_at: self.updated_at,
            file_path: self.file_path.clone(),
            is_encrypted: self.is_encrypted,
            dek_encrypted: copy_opt(&self.dek_encrypted),
            dek_nonce: copy_opt(&self.dek_nonce),
        }
    }
}

/// A remote file or collection as a WebDAV `PROPFIND` response lists it.
#[derive(Debug)]
pub struct RemoteEntry {
    pub href: String,
    pub is_collection: bool,
    pub last_modified: Option<String>,
    pub size: Option<u64>,
    pub etag: Option<String>,
}

/// Abstract value of a remote entry.
pub struct RemoteEntryView {
    pub href: Seq<char>,
    pub is_collection: bool,
    pub last_modified: Option<Seq<char>>,
    pub size: Option<u64>,
    pub etag: Option<Seq<char>>,
}

impl View for RemoteEntry {
    type V = RemoteEntryView;

    open spec fn view(&self) -> RemoteEntryView {
        RemoteEntryView {
            href: self.href@,
            is_collection: self.is_collection,
            last_modified: opt_view(self.last_modified),
            size: self.size,
            etag: opt_view(self.etag),
        }
    }
}

impl RemoteEntry {
    /// Copies the entry.
    pub fn copy(&self) -> (r: RemoteEntry)
        ensures
            r@ == self@,
    {
        RemoteEntry {
            href: self.href.clone(),
            is_collection: self.is_collection,
            last_modified: copy_opt(&self.last_modified),
            size: self.size,
            etag: copy_opt(&self.etag),
        }
    }
}

/// What the last synchronisation recorded of one file.
#[derive(Debug)]
pub struct RemoteFileMetadata {
    pub etag: Option<String>,
    pub last_modified: Option<Timestamp>,
    pub size: u64,
    pub local_updated_at: Option<Timestamp>,
    pub hash: String,
    pub is_dirty: bool,
}

impl RemoteFileMetadata {
    /// Copies the record.
    pub fn copy(&self) -> (r: RemoteFileMetadata)
        ensures
            opt_view(r.etag) == opt_view(self.etag),
            r.last_modified == self.last_modified,
            r.size == self.size,
            r.local_updated_at == self.local_updated_at,
            r.hash@ == self.hash@,
            r.is_dirty == self.is_dirty,
    {
        RemoteFileMetadata {
            etag: copy_opt(&self.etag),
            last_modified: self.last_modified,
            size: self.size,
            local_updated_at: self.local_updated_at,
            hash: self.hash.clone(),
            is_dirty: self.is_dirty,
        }
    }
}

/// What the last synchronisation recorded of another device's `.sync` signature.
#[derive(Debug)]
pub struct DeviceMetadata {
    pub last_known_etag: Option<String>,
    pub last_known_modified: Option<Timestamp>,
}

/// One tracked file: its vault-relative path and its record.
#[derive(Debug)]
pub struct FileState {
    pub path: String,
    pub meta: RemoteFileMetadata,
}

/// One known peer device and its record.
#[derive(Debug)]
pub struct DeviceState {
    pub name: String,
    pub meta: DeviceMetadata,
}

/// The local cache of remote state used for three-way sync decisions.
/// Paths, and device names, occur at most once (it is a map keyed by them).
#[derive(Debug)]
pub struct RemoteState {
    pub last_sync_time: Option<Timestamp>,
    pub devices: Vec<DeviceState>,
    pub files: Vec<FileState>,
}

/// The paths of the tracked files, in order.
pub open spec fn file_paths(files: Seq<FileState>) -> Seq<Seq<char>> {
    files.map_values(|f: FileState| f.path@)
}

/// The record of the last tracked file with path `path`.
pub open spec fn lookup_file(files: Seq<FileState>, path: Seq<char>) -> Option<RemoteFileMetadata>
    decreases files.len(),
{
    if files.len() == 0 {
        None
    } else if files.last().path@ == path {
        Some(files.last().meta)
    } else {
        lookup_file(files.drop_last(), path)
    }
}

/// A path that no tracked file has is not found.
pub proof fn lemma_lookup_absent(files: Seq<FileState>, path: Seq<char>)
    requires
        forall|i: int| 0 <= i < files.len() ==> files[i].path@ != path,
    ensures
        lookup_file(files, path) is None,
    decreases files.len(),
{
    if files.len() > 0 {
        lemma_lookup_absent(files.drop_last(), path);
    }
}

/// With distinct paths, the record found for the path at index `k` is the one there.
pub proof fn lemma_lookup_at(files: Seq<FileState>, k: int)
    requires
        file_paths(files).no_duplicates(),
        0 <= k < files.len(),
    ensures
        lookup_file(files, files[k].path@) == Some(files[k].meta),
    decreases files.len(),
{
    let n = files.len() - 1;
    if k < n {
        assert(file_paths(files)[k] == files[k].path@ && file_paths(files)[n] == files[n].path@);
        assert(file_paths(files.drop_last()) =~= file_paths(files).drop_last());
        lemma_lookup_at(files.drop_last(), k);
    }
}

/// A path that is found belongs to some tracked file.
pub proof fn lemma_lookup_found(files: Seq<FileState>, path: Seq<char>)
    requires
        lookup_file(files, path) is Some,
    ensures
        exists|i: int| 0 <= i < files.len() && files[i].path@ == path && lookup_file(files, path) == Some(files[i].meta),
    decreases files.len(),
{
    if files.last().path@ != path {
        lemma_lookup_found(files.drop_last(), path);
        let i = choose|i: int| 0 <= i < files.drop_last().len() && files.drop_last()[i].path@ == path && lookup_file(files.drop_last(), path) == Some(files.drop_last()[i].meta);
        assert(files[i] == files.drop_last()[i]);
    }
}

/// The names of the known devices, in order.
pub open spec fn device_names(devices: Seq<DeviceState>) -> Seq<Seq<char>> {
    devices.map_values(|d: DeviceState| d.name@)
}

impl RemoteState {
    /// Every path and every device name occurs at most once.
    pub open spec fn wf(&self) -> bool {
        &&& file_paths(self.files@).no_duplicates()
        &&& device_names(self.devices@).no_duplicates()
    }

    /// The record of `path`, if it is tracked.
    pub open spec fn file_meta(&self, path: Seq<char>) -> Option<RemoteFileMetadata> {
        lookup_file(self.files@, path)
    }

    /// An empty state.
    pub fn new() -> (r: RemoteState)
        ensures
            r.wf(),
            r.files@.len() == 0,
            r.devices@.len() == 0,
            r.last_sync_time is None,
    {
        let r = RemoteState { last_sync_time: None, devices: Vec::new(), files: Vec::new() };
        assert(file_paths(r.files@) =~= Seq::<Seq<char>>::empty());
        assert(device_names(r.devices@) =~= Seq::<Seq<char>>::empty());
        r
    }

    /// Index of the tracked file `path`.
    pub fn find_file(&self, path: &str) -> (r: Option<usize>)
        ensures
            r matches Some(i) ==> i < self.files@.len() && self.files@[i as int].path@ == path@,
            r is None ==> forall|i: int| 0 <= i < self.files@.len() ==> self.files@[i].path@ != path@,
    {
        let mut i: usize = 0;
        while i < self.files.len()
            invariant
                i <= self.files@.len(),
                forall|j: int| 0 <= j < i ==> self.files@[j].path@ != path@,
            decreases self.files.len() - i,
        {
            if str_eq(self.files[i].path.as_str(), path) {
                return Some(i);
            }
            i += 1;
        }
        None
    }

    /// Records `meta` for `path`, replacing an earlier record (as `HashMap::insert`).
    pub fn insert_file(&mut self, path: String, meta: RemoteFileMetadata)
        requires
            old(self).wf(),
        ensures
            final(self).wf(),
            final(self).devices@ == old(self).devices@,
            final(self).last_sync_time == old(self).last_sync_time,
            forall|q: Seq<char>| q != path@ ==> (#[trigger] final(self).file_meta(q)) == old(self).file_meta(q),
            final(self).file_meta(path@) == Some(meta),
    {
        let ghost p = path@;
        let ghost before = self.files@;
        match self.find_file(path.as_str()) {
            Some(i) => {
                let ghost names = file_paths(before);
                self.files.set(i, FileState { path, meta });
                proof {
                    assert(file_paths(self.files@) =~= names.update(i as int, p));
                    assert(names[i as int] == p);
                    assert(names.update(i as int, p) =~= names);
                    assert forall|q: Seq<char>| q != p implies (#[trigger] self.file_meta(q)) == old(self).file_meta(q) by {
                        lemma_lookup_update(before, i as int, FileState { path: self.files@[i as int].path, meta: self.files@[i as int].meta }, q);
                        assert(self.files@ =~= before.update(i as int, self.files@[i as int]));
                    }
                    assert(self.files@[i as int].path@ == p);
                    lemma_lookup_at(self.files@, i as int);
                }
            },
            None => {
                self.files.push(FileState { path, meta });
                proof {
                    assert(file_paths(self.files@) =~= file_paths(before).push(p));
                    let n = before.len() as int;
                    assert(self.files@.drop_last() =~= before);
                    assert(self.files@[n].path@ == p);
                    assert(file_paths(self.files@).no_duplicates()) by {
                        assert forall|a: int, b: int| 0 <= a < file_paths(self.files@).len() && 0 <= b < file_paths(self.files@).len() && a != b implies file_paths(self.files@)[a] != file_paths(self.files@)[b] by {
                            if a < n && b < n {
                                assert(file_paths(before)[a] == file_paths(self.files@)[a]);
                                assert(file_paths(before)[b] == file_paths(self.files@)[b]);
                            } else if a == n {
                                assert(self.files@[b] == before[b]);
                            } else {
                                assert(self.files@[a] == before[a]);
                            }
                        }
                    }
                    lemma_lookup_at(self.files@, n);
                }
            },
        }
    }
}

impl RemoteState {
    /// Stops tracking `path` (as `HashMap::remove`); other records are kept.
    pub fn remove_file(&mut self, path: &str)
        requires
            old(self).wf(),
        ensures
            final(self).wf(),
            final(self).devices@ == old(self).devices@,
            final(self).last_sync_time == old(self).last_sync_time,
            forall|q: Seq<char>| q != path@ ==> (#[trigger] final(self).file_meta(q)) == old(self).file_meta(q),
            final(self).file_meta(path@) is None,
    {
        let ghost before = self.files@;
        match self.find_file(path) {
            Some(i) => {
                self.files.remove(i);
                proof {
                    let after = self.files@;
                    assert(after =~= before.subrange(0, i as int) + before.subrange(i + 1, before.len() as int));
                    assert(file_paths(after) =~= file_paths(before).remove(i as int));
                    assert forall|a: int, b: int| 0 <= a < b < after.len() implies after[a].path@ != after[b].path@ by {
                        let a0 = if a < i { a } else { a + 1 };
                        let b0 = if b < i { b } else { b + 1 };
                        assert(after[a] == before[a0] && after[b] == before[b0]);
                        assert(file_paths(before)[a0] != file_paths(before)[b0]);
                    }
                    assert(file_paths(after).no_duplicates()) by {
                        assert forall|a: int, b: int| 0 <= a < file_paths(after).len() && 0 <= b < file_paths(after).len() && a != b implies file_paths(after)[a] != file_paths(after)[b] by {
                            if a < b {
                                assert(after[a].path@ != after[b].path@);
                            } else {
                                assert(after[b].path@ != after[a].path@);
                            }
                        }
                    }
                    assert forall|q: Seq<char>| q != path@ implies (#[trigger] self.file_meta(q)) == old(self).file_meta(q) by {
                        lemma_lookup_remove(before, i as int, q);
                    }
                    assert forall|j: int| 0 <= j < after.len() implies after[j].path@ != path@ by {
                        let j0 = if j < i { j } else { j + 1 };
                        assert(after[j] == before[j0]);
                        assert(file_paths(before)[j0] != file_paths(before)[i as int]);
                    }
                    lemma_lookup_absent(after, path@);
                }
            },
            None => {
                proof {
                    lemma_lookup_absent(before, path@);
                }
            },
        }
    }

    /// The record of device `name`, if it is known.
    pub open spec fn device_meta(&self, name: Seq<char>) -> Option<DeviceMetadata> {
        lookup_device(self.devices@, name)
    }

    /// Index of the known device `name`.
    pub fn find_device(&self, name: &str) -> (r: Option<usize>)
        ensures
            r matches Some(i) ==> i < self.devices@.len() && self.devices@[i as int].name@ == name@,
            r is None ==> forall|i: int| 0 <= i < self.devices@.len() ==> self.devices@[i].name@ != name@,
    {
        let mut i: usize = 0;
        while i < self.devices.len()
            invariant
                i <= self.devices@.len(),
                forall|j: int| 0 <= j < i ==> self.devices@[j].name@ != name@,
            decreases self.devices.len() - i,
        {
            if str_eq(self.devices[i].name.as_str(), name) {
                return Some(i);
            }
            i += 1;
        }
        None
    }

    /// Records `meta` for device `name`, replacing an earlier record.
    pub fn set_device(&mut self, name: String, meta: DeviceMetadata)
        requires
            old(self).wf(),
        ensures
            final(self).wf(),
            final(self).files@ == old(self).files@,
            final(self).last_sync_time == old(self).last_sync_time,
            forall|q: Seq<char>| q != name@ ==> (#[trigger] final(self).device_meta(q)) == old(self).device_meta(q),
            final(self).device_meta(name@) == Some(meta),
    {
        let ghost p = name@;
        let ghost before = self.devices@;
        match self.find_device(name.as_str()) {
            Some(i) => {
                let ghost names = device_names(before);
                self.devices.set(i, DeviceState { name, meta });
                proof {
                    assert(device_names(self.devices@) =~= names.update(i as int, p));
                    assert(names.update(i as int, p) =~= names);
                    assert forall|q: Seq<char>| q != p implies (#[trigger] self.device_meta(q)) == old(self).device_meta(q) by {
                        assert(self.devices@ =~= before.update(i as int, self.devices@[i as int]));
                        lemma_device_update(before, i as int, self.devices@[i as int], q);
                    }
                    lemma_device_at(self.devices@, i as int);
                }
            },
            None => {
                self.devices.push(DeviceState { name, meta });
                proof {
                    let n = before.len() as int;
                    assert(device_names(self.devices@) =~= device_names(before).push(p));
                    assert(self.devices@.drop_last() =~= before);
                    assert(device_names(self.devices@).no_duplicates()) by {
                        assert forall|a: int, b: int| 0 <= a < device_names(self.devices@).len() && 0 <= b < device_names(self.devices@).len() && a != b implies device_names(self.devices@)[a] != device_names(self.devices@)[b] by {
                            if a < n && b < n {
                                assert(device_names(before)[a] == device_names(self.devices@)[a]);
                                assert(device_names(before)[b] == device_names(self.devices@)[b]);
                            } else if a == n {
                                assert(self.devices@[b] == before[b]);
                            } else {
                                assert(self.devices@[a] == before[a]);
                            }
                        }
                    }
                    lemma_device_at(self.devices@, n);
                }
            },
        }
    }

    /// Forgets device `name`; other devices are kept.
    pub fn remove_device(&mut self, name: &str)
        requires
            old(self).wf(),
        ensures
            final(self).wf(),
            final(self).files@ == old(self).files@,
            final(self).last_sync_time == old(self).last_sync_time,
            forall|q: Seq<char>| q != name@ ==> (#[trigger] final(self).device_meta(q)) == old(self).device_meta(q),
            final(self).device_meta(name@) is None,
    {
        let ghost before = self.devices@;
        match self.find_device(name) {
            Some(i) => {
                self.devices.remove(i);
                proof {
                    let after = self.devices@;
                    assert(after =~= before.subrange(0, i as int) + before.subrange(i + 1, before.len() as int));
                    assert forall|a: int, b: int| 0 <= a < b < after.len() implies after[a].name@ != after[b].name@ by {
                        let a0 = if a < i { a } else { a + 1 };
                        let b0 = if b < i { b } else { b + 1 };
                        assert(after[a] == before[a0] && after[b] == before[b0]);
                        assert(device_names(before)[a0] != device_names(before)[b0]);
                    }
                    assert(device_names(after).no_duplicates()) by {
                        assert forall|a: int, b: int| 0 <= a < device_names(after).len() && 0 <= b < device_names(after).len() && a != b implies device_names(after)[a] != device_names(after)[b] by {
                            if a < b {
                                assert(after[a].name@ != after[b].name@);
                            } else {
                                assert(after[b].name@ != after[a].name@);
                            }
                        }
                    }
                    assert forall|q: Seq<char>| q != name@ implies (#[trigger] self.device_meta(q)) == old(self).device_meta(q) by {
                        lemma_device_remove(before, i as int, q);
                    }
                    assert forall|j: int| 0 <= j < after.len() implies after[j].name@ != name@ by {
                        let j0 = if j < i { j } else { j + 1 };
                        assert(after[j] == before[j0]);
                        assert(device_names(before)[j0] != device_names(before)[i as int]);
                    }
                    lemma_device_absent(after, name@);
                }
            },
            None => {
                proof {
                    lemma_device_absent(before, name@);
                }
            },
        }
    }
}

/// Removing the record at `k` changes what is found only for its path.
pub proof fn lemma_lookup_remove(files: Seq<FileState>, k: int, q: Seq<char>)
    requires
        0 <= k < files.len(),
        q != files[k].path@,
    ensures
        lookup_file(files.remove(k), q) == lookup_file(files, q),
    decreases files.len(),
{
    let n = files.len() - 1;
    if k < n {
        assert(files.remove(k).drop_last() =~= files.drop_last().remove(k));
        assert(files.remove(k).last() == files.last());
        lemma_lookup_remove(files.drop_last(), k, q);
    } else {
        assert(files.remove(k) =~= files.drop_last());
    }
}

/// The record of the last known device named `name`.
pub open spec fn lookup_device(devices: Seq<DeviceState>, name: Seq<char>) -> Option<DeviceMetadata>
    decreases devices.len(),
{
    if devices.len() == 0 {
        None
    } else if devices.last().name@ == name {
        Some(devices.last().meta)
    } else {
        lookup_device(devices.drop_last(), name)
    }
}

/// A name no known device has is not found.
pub proof fn lemma_device_absent(devices: Seq<DeviceState>, name: Seq<char>)
    requires
        forall|i: int| 0 <= i < devices.len() ==> devices[i].name@ != name,
    ensures
        lookup_device(devices, name) is None,
    decreases devices.len(),
{
    if devices.len() > 0 {
        lemma_device_absent(devices.drop_last(), name);
    }
}

/// With distinct names, the record found for the name at index `k` is the one there.
pub proof fn lemma_device_at(devices: Seq<DeviceState>, k: int)
    requires
        device_names(devices).no_duplicates(),
        0 <= k < devices.len(),
    ensures
        lookup_device(devices, devices[k].name@) == Some(devices[k].meta),
    decreases devices.len(),
{
    let n = devices.len() - 1;
    if k < n {
        assert(device_names(devices)[k] == devices[k].name@ && device_names(devices)[n] == devices[n].name@);
        assert(device_names(devices.drop_last()) =~= device_names(devices).drop_last());
        lemma_device_at(devices.drop_last(), k);
    }
}

/// Replacing one device record changes what is found only for the names involved.
pub proof fn lemma_device_update(devices: Seq<DeviceState>, k: int, d: DeviceState, q: Seq<char>)
    requires
        0 <= k < devices.len(),
        q != d.name@,
        q != devices[k].name@,
    ensures
        lookup_device(devices.update(k, d), q) == lookup_device(devices, q),
    decreases devices.len(),
{
    let n = devices.len() - 1;
    if k < n {
        assert(devices.update(k, d).drop_last() =~= devices.drop_last().update(k, d));
        lemma_device_update(devices.drop_last(), k, d, q);
    } else {
        assert(devices.update(k, d).drop_last() =~= devices.drop_last());
    }
}

/// Removing the device record at `k` changes what is found only for its name.
pub proof fn lemma_device_remove(devices: Seq<DeviceState>, k: int, q: Seq<char>)
    requires
        0 <= k < devices.len(),
        q != devices[k].name@,
    ensures
        lookup_device(devices.remove(k), q) == lookup_device(devices, q),
    decreases devices.len(),
{
    let n = devices.len() - 1;
    if k < n {
        assert(devices.remove(k).drop_last() =~= devices.drop_last().remove(k));
        assert(devices.remove(k).last() == devices.last());
        lemma_device_remove(devices.drop_last(), k, q);
    } else {
        assert(devices.remove(k) =~= devices.drop_last());
    }
}

/// Replacing one file record changes what is found only for the paths involved.
pub proof fn lemma_lookup_update(files: Seq<FileState>, k: int, f: FileState, q: Seq<char>)
    requires
        0 <= k < files.len(),
        q != f.path@,
        q != files[k].path@,
    ensures
        lookup_file(files.update(k, f), q) == lookup_file(files, q),
    decreases files.len(),
{
    let n = files.len() - 1;
    if k < n {
        assert(files.update(k, f).drop_last() =~= files.drop_last().update(k, f));
        lemma_lookup_update(files.drop_last(), k, f, q);
    } else {
        assert(files.update(k, f).drop_last() =~= files.drop_last());
    }
}

/// `true` when the two strings hold the same characters.
pub fn str_eq(a: &str, b: &str) -> (r: bool)
    ensures
        r == (a@ == b@),
{
    let x = crate::text::chars_of(a);
    let y = crate::text::chars_of(b);
    crate::text::chars_eq(x.as_slice(), y.as_slice())
}

} // verus!
