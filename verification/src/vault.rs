//! Vault handles and the Unix path arithmetic they rest on: path components, joining,
//! file names and extensions, as `std::path` computes them for `/`-separated paths.
use vstd::prelude::*;
use crate::text::{pieces_scan, pieces, split_on, chars_of, string_of, extend_chars, chars_eq};
use crate::search::char_vecs;

verus! {

// ---------------------------------------------------------------------------
// Path components
// ---------------------------------------------------------------------------

/// What a path starts with: the root `/`, a leading `.` component, or a plain name.
pub enum PathHead {
    Root,
    Current,
    Plain,
}

/// A piece between separators that is a component of its own: not empty and not `.`.
pub open spec fn is_normal_segment(s: Seq<char>) -> bool {
    s.len() > 0 && s != seq!['.']
}

/// The pieces that are components of their own, in order.
pub open spec fn normal_segments(ps: Seq<Seq<char>>) -> Seq<Seq<char>>
    decreases ps.len(),
{
    if ps.len() == 0 {
        Seq::empty()
    } else {
        let r = normal_segments(ps.drop_last());
        if is_normal_segment(ps.last()) { r.push(ps.last()) } else { r }
    }
}

/// The head of a path (as the first of `Path::components`).
pub open spec fn path_head(p: Seq<char>) -> PathHead {
    if p.len() > 0 && p[0] == '/' {
        PathHead::Root
    } else if pieces(p, '/')[0] == seq!['.'] {
        PathHead::Current
    } else {
        PathHead::Plain
    }
}

/// The named components of a path (`..` included, empty pieces and `.` left out).
pub open spec fn path_segments(p: Seq<char>) -> Seq<Seq<char>> {
    normal_segments(pieces(p, '/'))
}

/// `base` is a leading run of whole components of `p` (as `Path::starts_with`).
pub open spec fn path_starts_with(p: Seq<char>, base: Seq<char>) -> bool {
    path_head(p) == path_head(base)
        && path_segments(base).len() <= path_segments(p).len()
        && path_segments(p).take(path_segments(base).len() as int) == path_segments(base)
}

/// The components of `p` after those of `base` (as `Path::strip_prefix`).
pub open spec fn stripped_segments(p: Seq<char>, base: Seq<char>) -> Seq<Seq<char>> {
    path_segments(p).skip(path_segments(base).len() as int)
}

/// `p` with `seg` appended as `PathBuf::push` does: an absolute `seg` replaces the path;
/// otherwise a `/` goes between them unless `p` is empty or already ends with one.
pub open spec fn path_join(p: Seq<char>, seg: Seq<char>) -> Seq<char> {
    if seg.len() > 0 && seg[0] == '/' {
        seg
    } else if p.len() > 0 && p.last() != '/' {
        p + seq!['/'] + seg
    } else {
        p + seg
    }
}

/// The last component of a path, unless there is none or it is `..` (as
/// `Path::file_name`).
pub open spec fn path_file_name(p: Seq<char>) -> Option<Seq<char>> {
    let s = path_segments(p);
    if s.len() > 0 && s.last() != seq!['.', '.'] { Some(s.last()) } else { None }
}

/// Index of the last `c` in `s`, or -1.
pub open spec fn last_index_of(s: Seq<char>, c: char) -> int
    decreases s.len(),
{
    if s.len() == 0 {
        -1
    } else if s.last() == c {
        s.len() - 1
    } else {
        last_index_of(s.drop_last(), c)
    }
}

/// The text after the last `.` of the file name, where that dot is not its first
/// character (as `Path::extension`).
pub open spec fn path_extension(p: Seq<char>) -> Option<Seq<char>> {
    match path_file_name(p) {
        Some(n) => {
            let k = last_index_of(n, '.');
            if k <= 0 { None } else { Some(n.skip(k + 1)) }
        },
        None => None,
    }
}

pub proof fn lemma_last_index_of(s: Seq<char>, c: char)
    ensures
        -1 <= last_index_of(s, c) < s.len(),
        last_index_of(s, c) >= 0 ==> s[last_index_of(s, c)] == c,
        forall|j: int| last_index_of(s, c) < j < s.len() ==> s[j] != c,
    decreases s.len(),
{
    if s.len() > 0 && s.last() != c {
        lemma_last_index_of(s.drop_last(), c);
        assert forall|j: int| last_index_of(s, c) < j < s.len() implies s[j] != c by {
            if j < s.len() - 1 {
                assert(s[j] == s.drop_last()[j]);
            }
        }
    }
}

proof fn lemma_pieces_scan_free(s: Seq<char>, sep: char)
    ensures
        forall|i: int, j: int| 0 <= i < pieces_scan(s, sep).0.len() && 0 <= j < pieces_scan(s, sep).0[i].len()
            ==> #[trigger] pieces_scan(s, sep).0[i][j] != sep,
        forall|j: int| 0 <= j < pieces_scan(s, sep).1.len() ==> #[trigger] pieces_scan(s, sep).1[j] != sep,
    decreases s.len(),
{
    if s.len() > 0 {
        lemma_pieces_scan_free(s.drop_last(), sep);
        let (done, cur) = pieces_scan(s.drop_last(), sep);
        if s.last() == sep {
            let nd = done.push(cur);
            assert(pieces_scan(s, sep).0 == nd);
            assert forall|i: int, j: int| 0 <= i < nd.len() && 0 <= j < nd[i].len() implies #[trigger] nd[i][j] != sep by {
                if i < done.len() {
                    assert(nd[i] == done[i]);
                    assert(done[i][j] != sep);
                } else {
                    assert(nd[i] == cur);
                    assert(cur[j] != sep);
                }
            }
        } else {
            let nc = cur.push(s.last());
            assert(pieces_scan(s, sep).1 == nc);
            assert forall|j: int| 0 <= j < nc.len() implies #[trigger] nc[j] != sep by {
                if j < cur.len() {
                    assert(cur[j] != sep);
                }
            }
        }
    }
}

proof fn lemma_normal_segments_from(ps: Seq<Seq<char>>)
    ensures
        forall|i: int| 0 <= i < normal_segments(ps).len() ==> ps.contains(#[trigger] normal_segments(ps)[i]),
    decreases ps.len(),
{
    if ps.len() > 0 {
        lemma_normal_segments_from(ps.drop_last());
        let r = normal_segments(ps.drop_last());
        assert forall|i: int| 0 <= i < normal_segments(ps).len() implies ps.contains(#[trigger] normal_segments(ps)[i]) by {
            if i < r.len() {
                assert(ps.drop_last().contains(r[i]));
                let k = choose|k: int| 0 <= k < ps.drop_last().len() && ps.drop_last()[k] == r[i];
                assert(ps[k] == r[i]);
            } else {
                assert(ps[ps.len() - 1] == ps.last());
            }
        }
    }
}

/// A file name holds no `/`.
pub proof fn lemma_file_name_has_no_slash(p: Seq<char>)
    ensures
        path_file_name(p) matches Some(n) ==> forall|j: int| 0 <= j < n.len() ==> n[j] != '/',
{
    let ps = pieces(p, '/');
    lemma_pieces_scan_free(p, '/');
    lemma_normal_segments_from(ps);
    let segs = path_segments(p);
    if segs.len() > 0 && segs.last() != seq!['.', '.'] {
        let n = segs.last();
        assert(ps.contains(segs[segs.len() - 1]));
        let k = choose|k: int| 0 <= k < ps.len() && ps[k] == n;
        let (done, cur) = pieces_scan(p, '/');
        if k < done.len() {
            assert(ps[k] == done[k]);
            assert forall|j: int| 0 <= j < n.len() implies n[j] != '/' by {
                assert(done[k][j] != '/');
            }
        } else {
            assert(ps[k] == cur);
        }
    }
}

/// `true` for a piece that is a component of its own.
fn normal_segment(s: &Vec<char>) -> (r: bool)
    ensures
        r == is_normal_segment(s@),
{
    if s.len() == 0 {
        return false;
    }
    if s.len() == 1 && s[0] == '.' {
        assert(s@ =~= seq!['.']);
        return false;
    }
    assert(s@.len() == 1 ==> s@ != seq!['.']) by {
        if s@.len() == 1 && s@ == seq!['.'] {
            assert(s@[0] == '.');
        }
    }
    true
}

/// The named components of `p` (see [`path_segments`]).
pub fn segments_of(p: &[char]) -> (r: Vec<Vec<char>>)
    ensures
        char_vecs(r@) == path_segments(p@),
{
    let ps = split_on(p, '/');
    let ghost pv = ps@.map_values(|v: Vec<char>| v@);
    let mut r: Vec<Vec<char>> = Vec::new();
    let mut i: usize = 0;
    while i < ps.len()
        invariant
            i <= ps@.len(),
            pv == ps@.map_values(|v: Vec<char>| v@),
            char_vecs(r@) == normal_segments(pv.take(i as int)),
        decreases ps.len() - i,
    {
        proof {
            assert(pv.take(i + 1).drop_last() =~= pv.take(i as int));
            assert(pv.take(i + 1).last() == ps@[i as int]@);
        }
        if normal_segment(&ps[i]) {
            let ghost before = r@;
            r.push(ps[i].clone());
            proof {
                assert(char_vecs(r@) =~= char_vecs(before).push(ps@[i as int]@));
            }
        }
        i += 1;
    }
    assert(pv.take(ps.len() as int) =~= pv);
    r
}

/// The head of `p` (see [`path_head`]).
pub fn head_of(p: &[char]) -> (r: PathHead)
    ensures
        r == path_head(p@),
{
    if p.len() > 0 && p[0] == '/' {
        return PathHead::Root;
    }
    let ps = split_on(p, '/');
    assert(ps@[0]@ == pieces(p@, '/')[0]);
    if ps[0].len() == 1 && ps[0][0] == '.' {
        assert(ps@[0]@ =~= seq!['.']);
        PathHead::Current
    } else {
        assert(ps@[0]@ != seq!['.']) by {
            if ps@[0]@ == seq!['.'] {
                assert(ps@[0]@[0] == '.');
            }
        }
        PathHead::Plain
    }
}

fn same_head(a: &PathHead, b: &PathHead) -> (r: bool)
    ensures
        r == (*a == *b),
{
    match (a, b) {
        (PathHead::Root, PathHead::Root) => true,
        (PathHead::Current, PathHead::Current) => true,
        (PathHead::Plain, PathHead::Plain) => true,
        _ => false,
    }
}

/// `true` when `base` is a leading run of whole components of `p` (see
/// [`path_starts_with`]).
pub fn starts_with_path(p: &[char], base: &[char]) -> (r: bool)
    ensures
        r == path_starts_with(p@, base@),
{
    let hp = head_of(p);
    let hb = head_of(base);
    if !same_head(&hp, &hb) {
        return false;
    }
    let sp = segments_of(p);
    let sb = segments_of(base);
    if sb.len() > sp.len() {
        return false;
    }
    let mut i: usize = 0;
    while i < sb.len()
        invariant
            i <= sb@.len(),
            sb@.len() <= sp@.len(),
            char_vecs(sp@) == path_segments(p@),
            char_vecs(sb@) == path_segments(base@),
            forall|j: int| 0 <= j < i ==> sp@[j]@ == sb@[j]@,
        decreases sb.len() - i,
    {
        if !chars_eq(sp[i].as_slice(), sb[i].as_slice()) {
            proof {
                assert(char_vecs(sp@).take(sb@.len() as int)[i as int] == sp@[i as int]@);
                assert(char_vecs(sb@)[i as int] == sb@[i as int]@);
            }
            return false;
        }
        i += 1;
    }
    assert(char_vecs(sp@).take(sb@.len() as int) =~= char_vecs(sb@));
    true
}

/// `p` with `seg` appended (see [`path_join`]).
pub fn join_path(p: &str, seg: &str) -> (r: String)
    ensures
        r@ == path_join(p@, seg@),
{
    let pc = chars_of(p);
    let sc = chars_of(seg);
    if sc.len() > 0 && sc[0] == '/' {
        return string_of(&sc);
    }
    let mut out = pc.clone();
    if pc.len() > 0 && pc[pc.len() - 1] != '/' {
        out.push('/');
    }
    extend_chars(&mut out, sc.as_slice());
    proof {
        if pc@.len() > 0 && pc@.last() != '/' {
            assert(out@ =~= p@ + seq!['/'] + seg@);
        } else {
            assert(out@ =~= p@ + seg@);
        }
    }
    string_of(&out)
}

/// The file name of `p` (see [`path_file_name`]).
pub fn file_name_of(p: &str) -> (r: Option<String>)
    ensures
        match r {
            Some(n) => path_file_name(p@) == Some(n@),
            None => path_file_name(p@) is None,
        },
{
    let pc = chars_of(p);
    let s = segments_of(pc.as_slice());
    if s.len() == 0 {
        return None;
    }
    let last = &s[s.len() - 1];
    assert(char_vecs(s@).last() == last@);
    if chars_eq(last.as_slice(), &['.', '.']) {
        return None;
    }
    Some(string_of(last.as_slice()))
}

/// Index of the last `c` in `s` (see [`last_index_of`]).
fn last_index(s: &[char], c: char) -> (r: Option<usize>)
    ensures
        match r {
            Some(k) => last_index_of(s@, c) == k,
            None => last_index_of(s@, c) == -1,
        },
{
    let mut k: usize = s.len();
    assert(s@.take(k as int) =~= s@);
    while k > 0
        invariant
            k <= s.len(),
            last_index_of(s@, c) == last_index_of(s@.take(k as int), c),
        decreases k,
    {
        proof {
            assert(s@.take(k as int).drop_last() =~= s@.take(k - 1));
        }
        if s[k - 1] == c {
            return Some(k - 1);
        }
        k -= 1;
    }
    None
}

/// The extension of `p` (see [`path_extension`]).
pub fn extension_of(p: &str) -> (r: Option<String>)
    ensures
        match r {
            Some(e) => path_extension(p@) == Some(e@),
            None => path_extension(p@) is None,
        },
{
    match file_name_of(p) {
        None => None,
        Some(n) => {
            let nc = chars_of(n.as_str());
            let ns = nc.as_slice();
            assert(ns@ == nc@);
            match last_index(ns, '.') {
                None => None,
                Some(k) => {
                    proof {
                        lemma_last_index_of(nc@, '.');
                    }
                    assert(k < nc.len());
                    if k == 0 {
                        return None;
                    }
                    let mut e: Vec<char> = Vec::new();
                    let mut i: usize = k + 1;
                    while i < nc.len()
                        invariant
                            k + 1 <= i <= nc@.len(),
                            e@ == nc@.subrange(k + 1, i as int),
                        decreases nc.len() - i,
                    {
                        e.push(nc[i]);
                        i += 1;
                    }
                    assert(e@ =~= nc@.skip(k + 1));
                    Some(string_of(&e))
                },
            }
        },
    }
}

/// A path relative to `base` (as `strip_prefix` shows it): the components after the
/// base's joined by `/`, or the path itself where it is not under `base`.
pub open spec fn path_relative_to(p: Seq<char>, base: Seq<char>) -> Seq<char> {
    if path_starts_with(p, base) {
        crate::text::join_with(stripped_segments(p, base), seq!['/'])
    } else {
        p
    }
}

/// `p` relative to `base` (see [`path_relative_to`]).
pub fn relative_to(p: &str, base: &str) -> (r: String)
    ensures
        r@ == path_relative_to(p@, base@),
{
    let pc = chars_of(p);
    let bc = chars_of(base);
    if !starts_with_path(pc.as_slice(), bc.as_slice()) {
        return string_of(&pc);
    }
    let ps = segments_of(pc.as_slice());
    let bs = segments_of(bc.as_slice());
    let mut rest: Vec<Vec<char>> = Vec::new();
    let mut i: usize = bs.len();
    while i < ps.len()
        invariant
            bs@.len() <= i <= ps@.len(),
            char_vecs(rest@) == char_vecs(ps@).subrange(bs@.len() as int, i as int),
        decreases ps.len() - i,
    {
        let ghost before = rest@;
        rest.push(ps[i].clone());
        proof {
            assert(char_vecs(rest@) =~= char_vecs(before).push(ps@[i as int]@));
            assert(char_vecs(ps@).subrange(bs@.len() as int, i + 1) =~= char_vecs(ps@).subrange(bs@.len() as int, i as int).push(ps@[i as int]@));
        }
        i += 1;
    }
    assert(char_vecs(rest@) =~= stripped_segments(p@, base@));
    assert(rest@.map_values(|x: Vec<char>| x@) == char_vecs(rest@));
    let j = crate::text::join_chars(&rest, &['/']);
    assert(['/']@ =~= seq!['/']);
    string_of(&j)
}

// ---------------------------------------------------------------------------
// Vault handles
// ---------------------------------------------------------------------------

/// A vault: its root directory and its display name.
#[derive(Debug, Clone)]
pub struct Vault {
    pub path: String,
    pub name: String,
}

/// The name shown for a vault whose path has no file name.
pub open spec fn unknown_vault_name() -> Seq<char> {
    seq!['U', 'n', 'k', 'n', 'o', 'w', 'n', ' ', 'V', 'a', 'u', 'l', 't']
}

/// The display name of a vault at `path`: the path's file name, else "Unknown Vault".
pub open spec fn vault_name(path: Seq<char>) -> Seq<char> {
    match path_file_name(path) {
        Some(n) => n,
        None => unknown_vault_name(),
    }
}

impl Vault {
    /// A handle on the vault at `path`, named by its last component.
    pub fn new(path: String) -> (r: Vault)
        ensures
            r.path@ == path@,
            r.name@ == vault_name(path@),
    {
        let name = match file_name_of(path.as_str()) {
            Some(n) => n,
            None => string_of(&['U', 'n', 'k', 'n', 'o', 'w', 'n', ' ', 'V', 'a', 'u', 'l', 't']),
        };
        Vault { path, name }
    }
}

/// A note path relative to the vault, resolved against its root.
pub fn resolve_note_path(vault: &Vault, relative_path: &str) -> (r: String)
    ensures
        r@ == path_join(vault.path@, relative_path@),
{
    join_path(vault.path.as_str(), relative_path)
}

/// Reads and writes the Markdown notes under one directory.
#[derive(Debug, Clone)]
pub struct VaultService {
    base_path: String,
}

impl VaultService {
    /// The directory the service manages.
    pub closed spec fn base(&self) -> Seq<char> {
        self.base_path@
    }

    /// A service over the directory `base_path` (which the caller has made sure exists).
    pub fn new(base_path: String) -> (r: VaultService)
        ensures
            r.base() == base_path@,
    {
        VaultService { base_path }
    }

    /// The directory the service manages.
    pub fn base_path(&self) -> (r: &String)
        ensures
            r@ == self.base(),
    {
        &self.base_path
    }
}

/// Where a vault keeps its master-password configuration.
pub open spec fn vault_config_path(vault: Seq<char>) -> Seq<char> {
    path_join(vault, seq!['.', 'n', 'o', 'd', 'a', '/', 'v', 'a', 'u', 'l', 't', '_', 'c', 'o', 'n', 'f', 'i', 'g', '.', 'j', 's', 'o', 'n'])
}

/// The path of the vault's master-password configuration file.
pub fn config_file_path(vault_path: &str) -> (r: String)
    ensures
        r@ == vault_config_path(vault_path@),
{
    let rel = string_of(&['.', 'n', 'o', 'd', 'a', '/', 'v', 'a', 'u', 'l', 't', '_', 'c', 'o', 'n', 'f', 'i', 'g', '.', 'j', 's', 'o', 'n']);
    join_path(vault_path, rel.as_str())
}

} // verus!
