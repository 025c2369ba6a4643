//! Attachments: content-addressed file names, `noda://attachments/...` URIs resolved
//! under `.noda/attachments/` with path-traversal protection, and listings newest first.
//! The file reads and writes are the caller's.
use vstd::prelude::*;
use crate::errors::{IoKind, NodaError};
use crate::text::{first_occurrence, contains_seq, occurs_at, find_seq, contains, chars_of, string_of, extend_chars};
use crate::vault::{path_join, join_path, path_starts_with, starts_with_path, path_extension, extension_of};
use crate::engine::{content_hash, content_hash_spec};

verus! {

/// `.noda`
pub open spec fn noda_dir_name() -> Seq<char> {
    seq!['.', 'n', 'o', 'd', 'a']
}

/// `attachments`
pub open spec fn attachments_name() -> Seq<char> {
    seq!['a', 't', 't', 'a', 'c', 'h', 'm', 'e', 'n', 't', 's']
}

/// The attachments directory of a vault: `<vault>/.noda/attachments`.
pub open spec fn attachments_dir_spec(vault: Seq<char>) -> Seq<char> {
    path_join(path_join(vault, noda_dir_name()), attachments_name())
}

/// The marker before an attachment's file name in a URI: `/attachments/`.
pub open spec fn uri_marker() -> Seq<char> {
    seq!['/', 'a', 't', 't', 'a', 'c', 'h', 'm', 'e', 'n', 't', 's', '/']
}

/// The message of a URI without the marker.
pub open spec fn invalid_uri_message(uri: Seq<char>) -> Seq<char> {
    seq!['I', 'n', 'v', 'a', 'l', 'i', 'd', ' ', 'a', 't', 't', 'a', 'c', 'h', 'm', 'e', 'n', 't', ' ', 'U', 'R', 'I', ':', ' '] + uri
}

/// The message of a file name that would leave the attachments directory.
pub open spec fn traversal_in_uri_message() -> Seq<char> {
    seq!['P', 'a', 't', 'h', ' ', 't', 'r', 'a', 'v', 'e', 'r', 's', 'a', 'l', ' ', 'd', 'e', 't', 'e', 'c', 't', 'e', 'd', ' ', 'i', 'n', ' ', 'U', 'R', 'I']
}

/// The file name a URI names: what follows the first `/attachments/`.
pub open spec fn uri_file_name(uri: Seq<char>) -> Option<Seq<char>> {
    match first_occurrence(uri, uri_marker()) {
        Some(i) => Some(uri.skip(i + uri_marker().len())),
        None => None,
    }
}

/// A file name that could reach outside its directory: it holds `..`, `/` or `\`.
pub open spec fn escapes_directory(name: Seq<char>) -> bool {
    contains_seq(name, seq!['.', '.']) || contains_seq(name, seq!['/']) || contains_seq(name, seq!['\\'])
}

/// The attachments directory of a vault.
pub fn attachments_dir(vault_path: &str) -> (r: String)
    ensures
        r@ == attachments_dir_spec(vault_path@),
{
    let noda = string_of(&['.', 'n', 'o', 'd', 'a']);
    let att = string_of(&['a', 't', 't', 'a', 'c', 'h', 'm', 'e', 'n', 't', 's']);
    let d = join_path(vault_path, noda.as_str());
    join_path(d.as_str(), att.as_str())
}

/// Resolves a `noda://attachments/<name>` URI to the file's path under the vault's
/// attachments directory. A URI without `/attachments/` is an `Io` error of kind
/// `InvalidInput`; a name holding
/// `..`, `/` or `\` is a `PathTraversal` error.
pub fn resolve_path(vault_path: &str, uri: &str) -> (r: Result<String, NodaError>)
    ensures
        match uri_file_name(uri@) {
            None => (r matches Err(NodaError::Io(k, m)) && k == IoKind::InvalidInput && m@ == invalid_uri_message(uri@)),
            Some(f) => if escapes_directory(f) {
                (r matches Err(NodaError::PathTraversal(m)) && m@ == traversal_in_uri_message())
            } else {
                (r matches Ok(p) && p@ == path_join(attachments_dir_spec(vault_path@), f))
            },
        },
{
    let u = chars_of(uri);
    let marker = ['/', 'a', 't', 't', 'a', 'c', 'h', 'm', 'e', 'n', 't', 's', '/'];
    assert(marker@ =~= uri_marker());
    let ms: &[char] = &marker;
    assert(ms@ == marker@);
    assert(ms@.len() == 13);
    match find_seq(u.as_slice(), ms) {
        None => {
            let mut m: Vec<char> = Vec::new();
            let prefix = ['I', 'n', 'v', 'a', 'l', 'i', 'd', ' ', 'a', 't', 't', 'a', 'c', 'h', 'm', 'e', 'n', 't', ' ', 'U', 'R', 'I', ':', ' '];
            extend_chars(&mut m, &prefix);
            extend_chars(&mut m, u.as_slice());
            assert(m@ =~= invalid_uri_message(uri@));
            Err(NodaError::Io(IoKind::InvalidInput, string_of(&m)))
        },
        Some(idx) => {
            assert(occurs_at(u@, ms@, idx as int));
            assert(idx + 13 <= u@.len());
            let ulen = u.len();
            assert(ulen == u@.len());
            let mut f: Vec<char> = Vec::new();
            let mut i: usize = idx + 13;
            while i < u.len()
                invariant
                    idx + 13 <= i <= u@.len(),
                    f@ == u@.subrange(idx + 13, i as int),
                decreases u.len() - i,
            {
                f.push(u[i]);
                i += 1;
            }
            assert(f@ =~= u@.skip(idx + 13));
            let dots = ['.', '.'];
            let slash = ['/'];
            let back = ['\\'];
            assert(dots@ =~= seq!['.', '.']);
            assert(slash@ =~= seq!['/']);
            assert(back@ =~= seq!['\\']);
            if contains(f.as_slice(), &dots) || contains(f.as_slice(), &slash) || contains(f.as_slice(), &back) {
                let msg = ['P', 'a', 't', 'h', ' ', 't', 'r', 'a', 'v', 'e', 'r', 's', 'a', 'l', ' ', 'd', 'e', 't', 'e', 'c', 't', 'e', 'd', ' ', 'i', 'n', ' ', 'U', 'R', 'I'];
                assert(msg@ =~= traversal_in_uri_message());
                return Err(NodaError::PathTraversal(string_of(&msg)));
            }
            let dir = attachments_dir(vault_path);
            let name = string_of(&f);
            Ok(join_path(dir.as_str(), name.as_str()))
        },
    }
}

/// The message when the attachments directory cannot be resolved.
pub open spec fn missing_dir_message() -> Seq<char> {
    seq!['A', 't', 't', 'a', 'c', 'h', 'm', 'e', 'n', 't', 's', ' ', 'd', 'i', 'r', 'e', 'c', 't', 'o', 'r', 'y', ' ', 'd', 'o', 'e', 's', ' ', 'n', 'o', 't', ' ', 'e', 'x', 'i', 's', 't']
}

/// The message when the requested file cannot be resolved.
pub open spec fn missing_file_message() -> Seq<char> {
    seq!['R', 'e', 'q', 'u', 'e', 's', 't', 'e', 'd', ' ', 'f', 'i', 'l', 'e', ' ', 'd', 'o', 'e', 's', ' ', 'n', 'o', 't', ' ', 'e', 'x', 'i', 's', 't']
}

/// The message when the requested file lies outside the attachments directory.
pub open spec fn outside_dir_message() -> Seq<char> {
    seq!['A', 't', 't', 'e', 'm', 'p', 't', 'e', 'd', ' ', 't', 'o', ' ', 'a', 'c', 'c', 'e', 's', 's', ' ', 'f', 'i', 'l', 'e', 's', ' ', 'o', 'u', 't', 's', 'i', 'd', 'e', ' ',
        'a', 't', 't', 'a', 'c', 'h', 'm', 'e', 'n', 't', 's', ' ', 'd', 'i', 'r', 'e', 'c', 't', 'o', 'r', 'y']
}

/// Checks that a requested file lies inside the attachments directory, given both paths
/// as the file system resolved them (`canonicalize`; `None` where that failed). Returns
/// the resolved file path.
pub fn validate_path(canonical_dir: Option<String>, canonical_requested: Option<String>) -> (r: Result<String, NodaError>)
    ensures
        match (canonical_dir, canonical_requested) {
            (None, _) => (r matches Err(NodaError::NotFound(m)) && m@ == missing_dir_message()),
            (Some(_), None) => (r matches Err(NodaError::NotFound(m)) && m@ == missing_file_message()),
            (Some(d), Some(p)) => if path_starts_with(p@, d@) {
                (r matches Ok(q) && q@ == p@)
            } else {
                (r matches Err(NodaError::PathTraversal(m)) && m@ == outside_dir_message())
            },
        },
{
    let dir = match canonical_dir {
        Some(d) => d,
        None => {
            let m = ['A', 't', 't', 'a', 'c', 'h', 'm', 'e', 'n', 't', 's', ' ', 'd', 'i', 'r', 'e', 'c', 't', 'o', 'r', 'y', ' ', 'd', 'o', 'e', 's', ' ', 'n', 'o', 't', ' ', 'e', 'x', 'i', 's', 't'];
            assert(m@ =~= missing_dir_message());
            return Err(NodaError::NotFound(string_of(&m)));
        },
    };
    let req = match canonical_requested {
        Some(p) => p,
        None => {
            let m = ['R', 'e', 'q', 'u', 'e', 's', 't', 'e', 'd', ' ', 'f', 'i', 'l', 'e', ' ', 'd', 'o', 'e', 's', ' ', 'n', 'o', 't', ' ', 'e', 'x', 'i', 's', 't'];
            assert(m@ =~= missing_file_message());
            return Err(NodaError::NotFound(string_of(&m)));
        },
    };
    let dc = chars_of(dir.as_str());
    let rc = chars_of(req.as_str());
    if !starts_with_path(rc.as_slice(), dc.as_slice()) {
        let m = ['A', 't', 't', 'e', 'm', 'p', 't', 'e', 'd', ' ', 't', 'o', ' ', 'a', 'c', 'c', 'e', 's', 's', ' ', 'f', 'i', 'l', 'e', 's', ' ', 'o', 'u', 't', 's', 'i', 'd', 'e', ' ',
            'a', 't', 't', 'a', 'c', 'h', 'm', 'e', 'n', 't', 's', ' ', 'd', 'i', 'r', 'e', 'c', 't', 'o', 'r', 'y'];
        assert(m@ =~= outside_dir_message());
        return Err(NodaError::PathTraversal(string_of(&m)));
    }
    Ok(req)
}

/// The content-addressed name of stored bytes: `xxh3_` and the 16-digit hash, then `.`
/// and the original file's extension where it has a non-empty one.
pub open spec fn attachment_name_spec(bytes: Seq<u8>, original: Seq<char>) -> Seq<char> {
    let base = seq!['x', 'x', 'h', '3', '_'] + content_hash_spec(bytes);
    match path_extension(original) {
        Some(e) => if e.len() > 0 { base + seq!['.'] + e } else { base },
        None => base,
    }
}

/// The file name under which bytes are stored (see [`attachment_name_spec`]).
pub fn attachment_file_name(bytes: &[u8], original_filename: &str) -> (r: String)
    ensures
        r@ == attachment_name_spec(bytes@, original_filename@),
{
    let h = content_hash(bytes);
    let mut out: Vec<char> = Vec::new();
    extend_chars(&mut out, &['x', 'x', 'h', '3', '_']);
    let hc = chars_of(h.as_str());
    extend_chars(&mut out, hc.as_slice());
    assert(out@ =~= seq!['x', 'x', 'h', '3', '_'] + content_hash_spec(bytes@));
    match extension_of(original_filename) {
        Some(e) => {
            let ec = chars_of(e.as_str());
            if ec.len() > 0 {
                let ghost before = out@;
                out.push('.');
                extend_chars(&mut out, ec.as_slice());
                assert(out@ =~= before + seq!['.'] + e@);
            }
        },
        None => {},
    }
    string_of(&out)
}

/// `noda://attachments/`
pub open spec fn uri_prefix() -> Seq<char> {
    seq!['n', 'o', 'd', 'a', ':', '/', '/', 'a', 't', 't', 'a', 'c', 'h', 'm', 'e', 'n', 't', 's', '/']
}

/// The URI under which a stored attachment is served.
pub fn attachment_uri(name: &str) -> (r: String)
    ensures
        r@ == uri_prefix() + name@,
{
    let mut out: Vec<char> = Vec::new();
    extend_chars(&mut out, &['n', 'o', 'd', 'a', ':', '/', '/', 'a', 't', 't', 'a', 'c', 'h', 'm', 'e', 'n', 't', 's', '/']);
    let nc = chars_of(name);
    extend_chars(&mut out, nc.as_slice());
    assert(out@ =~= uri_prefix() + name@);
    string_of(&out)
}

/// A stored attachment's URI names its file again: for a file name that stays inside its
/// directory (no `..`, `/` or `\`), the name that [`resolve_path`] reads from
/// `noda://attachments/<name>` is `<name>`, so the URI resolves to
/// `<vault>/.noda/attachments/<name>`, where the file was stored.
pub proof fn law_attachment_uri_round_trip(name: Seq<char>)
    ensures
        uri_file_name(uri_prefix() + name) == Some(name),
{
    let u = uri_prefix() + name;
    let m = uri_marker();
    assert(u.subrange(6, 6 + m.len() as int) =~= m);
    assert(occurs_at(u, m, 6));
    assert(contains_seq(u, m));
    assert forall|j: int| 0 <= j < 6 implies !occurs_at(u, m, j) by {
        if occurs_at(u, m, j) {
            assert(u.subrange(j, j + m.len() as int)[0] == m[0]);
            assert(u.subrange(j, j + m.len() as int)[1] == m[1]);
            assert(u[j] == '/');
            assert(u[j + 1] == 'a');
        }
    }
    let i = choose|i: int| occurs_at(u, m, i) && forall|j: int| 0 <= j < i ==> !occurs_at(u, m, j);
    assert(occurs_at(u, m, i) && forall|j: int| 0 <= j < i ==> !occurs_at(u, m, j));
    assert(i == 6);
    assert(u.skip(6 + m.len() as int) =~= name);
}

/// A stored attachment's file name stays inside its directory: it is `xxh3_`, sixteen
/// hexadecimal digits and, after a single `.`, the original's extension, which holds no
/// `.` and no `/`. So it holds `..`, `/` or `\` only where the original file's extension
/// holds a `\`.
pub proof fn law_attachment_names_stay_inside(bytes: Seq<u8>, original: Seq<char>)
    requires
        path_extension(original) matches Some(e) ==> forall|j: int| 0 <= j < e.len() ==> e[j] != '\\',
    ensures
        !escapes_directory(attachment_name_spec(bytes, original)),
{
    let base = seq!['x', 'x', 'h', '3', '_'] + content_hash_spec(bytes);
    let name = attachment_name_spec(bytes, original);
    let hex = content_hash_spec(bytes);
    assert forall|j: int| 0 <= j < hex.len() implies #[trigger] hex[j] != '.' && hex[j] != '/' && hex[j] != '\\' by {
        let v = crate::engine::xxh3_of(bytes);
        let d = ((v as int) / (crate::engine::pow16((15 - j) as nat) as int)) % 16;
        assert(0 <= d < 16);
        assert(hex[j] == crate::engine::hex_char(d));
    }
    assert(base.len() == 21);
    assert forall|j: int| 0 <= j < base.len() implies #[trigger] base[j] != '.' && base[j] != '/' && base[j] != '\\' by {
        if j >= 5 {
            assert(base[j] == hex[j - 5]);
        }
    }
    let mut ext: Seq<char> = Seq::empty();
    match path_extension(original) {
        Some(e) => {
            let n = crate::vault::path_file_name(original)->0;
            crate::vault::lemma_file_name_has_no_slash(original);
            crate::vault::lemma_last_index_of(n, '.');
            let k = crate::vault::last_index_of(n, '.');
            assert forall|j: int| 0 <= j < e.len() implies e[j] != '.' && e[j] != '/' by {
                assert(e[j] == n[k + 1 + j]);
            }
            if e.len() > 0 {
                ext = e;
            }
        },
        None => {},
    }
    assert(forall|j: int| 0 <= j < ext.len() ==> ext[j] != '.' && ext[j] != '/' && ext[j] != '\\');
    if ext.len() > 0 {
        assert(name == base + seq!['.'] + ext);
    } else {
        assert(name == base);
    }
    assert forall|i: int| !occurs_at(name, seq!['/'], i) && !occurs_at(name, seq!['\\'], i) by {
        if 0 <= i < name.len() {
            assert(name.subrange(i, i + 1)[0] == name[i]);
            if i < base.len() {
                assert(name[i] == base[i]);
            } else if i > base.len() {
                assert(name[i] == ext[i - base.len() - 1]);
            }
        }
    }
    assert forall|i: int| !occurs_at(name, seq!['.', '.'], i) by {
        if 0 <= i && i + 2 <= name.len() {
            assert(name.subrange(i, i + 2)[0] == name[i]);
            assert(name.subrange(i, i + 2)[1] == name[i + 1]);
            if i < base.len() {
                assert(name[i] == base[i]);
            } else {
                assert(name[i + 1] == ext[i + 1 - base.len() - 1]);
            }
        }
    }
}

/// A stored attachment as listed: its file name, modification time (epoch
/// milliseconds) and size in bytes.
#[derive(Debug, Clone)]
pub struct AttachmentInfo {
    pub name: String,
    pub modified_at: u64,
    pub size: u64,
}

/// `x` inserted into a list sorted newest first: after every entry not older (so
/// entries of equal time keep their order).
pub open spec fn insert_by_recency(sorted: Seq<AttachmentInfo>, x: AttachmentInfo) -> Seq<AttachmentInfo>
    decreases sorted.len(),
{
    if sorted.len() == 0 || sorted.last().modified_at >= x.modified_at {
        sorted.push(x)
    } else {
        insert_by_recency(sorted.drop_last(), x).push(sorted.last())
    }
}

/// The entries sorted newest first, stably.
pub open spec fn sort_by_recency(v: Seq<AttachmentInfo>) -> Seq<AttachmentInfo>
    decreases v.len(),
{
    if v.len() == 0 {
        Seq::empty()
    } else {
        insert_by_recency(sort_by_recency(v.drop_last()), v.last())
    }
}

/// Newest first: no entry is older than one after it.
pub open spec fn newest_first(v: Seq<AttachmentInfo>) -> bool {
    forall|i: int, j: int| 0 <= i < j < v.len() ==> (#[trigger] v[i]).modified_at >= (#[trigger] v[j]).modified_at
}

fn insert_recent(v: &mut Vec<AttachmentInfo>, x: AttachmentInfo)
    ensures
        final(v)@ == insert_by_recency(old(v)@, x),
    decreases old(v)@.len(),
{
    if v.len() == 0 || v[v.len() - 1].modified_at >= x.modified_at {
        v.push(x);
        return;
    }
    let last = v.pop().unwrap();
    insert_recent(v, x);
    v.push(last);
}

/// Orders a listing newest first, keeping the listed order among equal times.
pub fn order_by_recency(items: Vec<AttachmentInfo>) -> (r: Vec<AttachmentInfo>)
    ensures
        r@ == sort_by_recency(items@),
        newest_first(r@),
        r@.to_multiset() == items@.to_multiset(),
{
    let ghost orig = items@;
    let n: usize = items.len();
    assert(orig.len() == n);
    let mut rest = items;
    let mut out: Vec<AttachmentInfo> = Vec::new();
    let mut k: usize = 0;
    while rest.len() > 0
        invariant
            k <= orig.len(),
            rest@ == orig.skip(k as int),
            rest@.len() == orig.len() - k,
            orig.len() <= usize::MAX,
            out@ == sort_by_recency(orig.take(k as int)),
        decreases rest.len(),
    {
        let x = rest.remove(0);
        proof {
            assert(orig.take(k + 1).drop_last() =~= orig.take(k as int));
            assert(orig.take(k + 1).last() == x);
            assert(rest@ =~= orig.skip(k + 1));
        }
        insert_recent(&mut out, x);
        k += 1;
    }
    assert(orig.take(k as int) =~= orig);
    proof {
        law_recency_order(orig);
    }
    out
}

proof fn lemma_insert_recency(sorted: Seq<AttachmentInfo>, x: AttachmentInfo)
    requires
        newest_first(sorted),
    ensures
        newest_first(insert_by_recency(sorted, x)),
        insert_by_recency(sorted, x).to_multiset() == sorted.to_multiset().insert(x),
        insert_by_recency(sorted, x).len() == sorted.len() + 1,
        forall|k: int| 0 <= k < insert_by_recency(sorted, x).len() ==>
            (#[trigger] insert_by_recency(sorted, x)[k]) == x || sorted.contains(insert_by_recency(sorted, x)[k]),
    decreases sorted.len(),
{
    broadcast use vstd::seq_lib::group_to_multiset_ensures;
    let r = insert_by_recency(sorted, x);
    if sorted.len() == 0 || sorted.last().modified_at >= x.modified_at {
        assert(sorted.push(x) =~= sorted + seq![x]);
        assert forall|k: int| 0 <= k < r.len() implies (#[trigger] r[k]) == x || sorted.contains(r[k]) by {
            if k < sorted.len() {
                assert(r[k] == sorted[k]);
            }
        }
    } else {
        let init = sorted.drop_last();
        let last = sorted.last();
        assert(newest_first(init));
        lemma_insert_recency(init, x);
        let mid = insert_by_recency(init, x);
        assert(r == mid.push(last));
        assert forall|i: int, j: int| 0 <= i < j < r.len() implies (#[trigger] r[i]).modified_at >= (#[trigger] r[j]).modified_at by {
            if j == r.len() - 1 {
                assert(r[j] == last);
                assert(r[i] == mid[i]);
                if mid[i] == x {
                } else {
                    let k = choose|k: int| 0 <= k < init.len() && init[k] == mid[i];
                    assert(init[k] == sorted[k]);
                    assert(sorted[k].modified_at >= sorted[sorted.len() - 1].modified_at);
                }
            } else {
                assert(r[i] == mid[i]);
                assert(r[j] == mid[j]);
            }
        }
        assert(sorted =~= init.push(last));
        assert(r.to_multiset() =~= sorted.to_multiset().insert(x));
        assert forall|k: int| 0 <= k < r.len() implies (#[trigger] r[k]) == x || sorted.contains(r[k]) by {
            if k == r.len() - 1 {
                assert(sorted[sorted.len() - 1] == r[k]);
            } else {
                assert(r[k] == mid[k]);
                if mid[k] != x {
                    let q = choose|q: int| 0 <= q < init.len() && init[q] == mid[k];
                    assert(sorted[q] == init[q]);
                }
            }
        }
    }
}

/// A listing ordered by recency is newest first and holds exactly the listed entries.
pub proof fn law_recency_order(items: Seq<AttachmentInfo>)
    ensures
        newest_first(sort_by_recency(items)),
        sort_by_recency(items).to_multiset() == items.to_multiset(),
    decreases items.len(),
{
    broadcast use vstd::seq_lib::group_to_multiset_ensures;
    if items.len() > 0 {
        law_recency_order(items.drop_last());
        lemma_insert_recency(sort_by_recency(items.drop_last()), items.last());
        assert(items =~= items.drop_last().push(items.last()));
    } else {
        assert(items =~= Seq::<AttachmentInfo>::empty());
    }
}

} // verus!
