//! Walking a WebDAV tree one `Depth: 1` listing at a time: where the walk starts, and
//! what it makes of each listed entry (dropped, or kept under a path relative to the
//! server's base and, for a directory, walked next). The requests are the caller's.
use vstd::prelude::*;
use crate::text::{has_prefix, pieces, chars_of, string_of, starts_with, split_on, chars_eq};
use crate::paths::{normalize_spec, normalize_path, is_same_path, trim_start_char, trim_start_matches, tail_from};
use crate::models::{RemoteEntry, RemoteEntryView};

verus! {

/// Where the walk starts: the root path with a leading `/`.
pub open spec fn tree_root_spec(root: Seq<char>) -> Seq<char> {
    if root.len() > 0 && root[0] == '/' { root } else { seq!['/'] + root }
}

/// The path the walk starts at.
pub fn tree_root(root_path: &str) -> (r: String)
    ensures
        r@ == tree_root_spec(root_path@),
{
    let c = chars_of(root_path);
    if c.len() > 0 && c[0] == '/' {
        return string_of(&c);
    }
    let mut v = vec!['/'];
    crate::text::extend_chars(&mut v, c.as_slice());
    assert(v@ =~= seq!['/'] + root_path@);
    string_of(&v)
}

/// An entry's path relative to the server's base path: the normalised href with the
/// base taken off its front (as text), starting with `/`; or the normalised href where
/// it does not start with the base.
pub open spec fn entry_path_spec(href: Seq<char>, base: Seq<char>) -> Seq<char> {
    let n = normalize_spec(href);
    if has_prefix(n, base) {
        let rem = n.skip(base.len() as int);
        if rem.len() > 0 && rem[0] == '/' { rem } else { seq!['/'] + rem }
    } else {
        n
    }
}

/// The path of a listed entry relative to the base path (see [`entry_path_spec`]).
pub fn entry_path(href: &str, base_url_path: &str) -> (r: String)
    ensures
        r@ == entry_path_spec(href@, base_url_path@),
{
    let n = normalize_path(href);
    let nc = chars_of(n.as_str());
    let bc = chars_of(base_url_path);
    if starts_with(nc.as_slice(), bc.as_slice()) {
        let rem = tail_from(nc.as_slice(), bc.len());
        if rem.len() > 0 && rem[0] == '/' {
            return string_of(&rem);
        }
        let mut v = vec!['/'];
        crate::text::extend_chars(&mut v, rem.as_slice());
        assert(v@ =~= seq!['/'] + rem@);
        return string_of(&v);
    }
    string_of(&nc)
}

/// `.noda`
pub open spec fn noda_name() -> Seq<char> {
    seq!['.', 'n', 'o', 'd', 'a']
}

/// A hidden component other than `.noda`.
pub open spec fn hidden_part(p: Seq<char>) -> bool {
    p.len() > 0 && p[0] == '.' && p != noda_name()
}

/// An entry the walk keeps: no component is hidden (but `.noda`), and inside `.noda`
/// only `.noda` itself, `.noda/attachments...` and `.noda/history...`.
pub open spec fn tree_visible(rel: Seq<char>) -> bool {
    let n = trim_start_char(rel, '/');
    let parts = pieces(n, '/');
    &&& forall|i: int| 0 <= i < parts.len() ==> !hidden_part(#[trigger] parts[i])
    &&& parts.contains(noda_name()) ==> (n == noda_name()
        || has_prefix(n, seq!['.', 'n', 'o', 'd', 'a', '/', 'a', 't', 't', 'a', 'c', 'h', 'm', 'e', 'n', 't', 's'])
        || has_prefix(n, seq!['.', 'n', 'o', 'd', 'a', '/', 'h', 'i', 's', 't', 'o', 'r', 'y']))
}

/// `true` when the walk keeps an entry at `rel` (see [`tree_visible`]).
pub fn is_tree_visible(rel: &str) -> (r: bool)
    ensures
        r == tree_visible(rel@),
{
    let rc = chars_of(rel);
    let n = trim_start_matches(rc.as_slice(), '/');
    let parts = split_on(n.as_slice(), '/');
    let ghost pv = parts@.map_values(|q: Vec<char>| q@);
    let noda = ['.', 'n', 'o', 'd', 'a'];
    assert(noda@ =~= noda_name());
    let mut has_noda = false;
    let mut i: usize = 0;
    while i < parts.len()
        invariant
            i <= parts@.len(),
            pv == parts@.map_values(|q: Vec<char>| q@),
            pv == pieces(n@, '/'),
            n@ == trim_start_char(rel@, '/'),
            noda@ == noda_name(),
            forall|j: int| 0 <= j < i ==> !hidden_part(#[trigger] pv[j]),
            has_noda == exists|j: int| 0 <= j < i && pv[j] == noda_name(),
        decreases parts.len() - i,
    {
        let p = &parts[i];
        assert(pv[i as int] == p@);
        let is_noda = chars_eq(p.as_slice(), &noda);
        if p.len() > 0 && p[0] == '.' && !is_noda {
            proof {
                assert(hidden_part(pv[i as int]));
                assert(n@ == trim_start_char(rel@, '/'));
            }
            return false;
        }
        if is_noda {
            has_noda = true;
        }
        i += 1;
    }
    proof {
        if has_noda {
            let j = choose|j: int| 0 <= j < parts@.len() && pv[j] == noda_name();
            assert(pv.contains(noda_name()));
        }
        if pv.contains(noda_name()) {
            let j = choose|j: int| 0 <= j < pv.len() && pv[j] == noda_name();
            assert(has_noda);
        }
    }
    if !has_noda {
        return true;
    }
    let att = ['.', 'n', 'o', 'd', 'a', '/', 'a', 't', 't', 'a', 'c', 'h', 'm', 'e', 'n', 't', 's'];
    let his = ['.', 'n', 'o', 'd', 'a', '/', 'h', 'i', 's', 't', 'o', 'r', 'y'];
    assert(att@ =~= seq!['.', 'n', 'o', 'd', 'a', '/', 'a', 't', 't', 'a', 'c', 'h', 'm', 'e', 'n', 't', 's']);
    assert(his@ =~= seq!['.', 'n', 'o', 'd', 'a', '/', 'h', 'i', 's', 't', 'o', 'r', 'y']);
    chars_eq(n.as_slice(), &noda) || starts_with(n.as_slice(), &att) || starts_with(n.as_slice(), &his)
}

/// What the walk does with a listed entry: `None` drops it (the listed directory
/// itself, or a path the walk does not keep); otherwise the entry with its href made
/// relative to the base, and whether to list it next (a directory).
pub open spec fn tree_step_spec(requested: Seq<char>, base: Seq<char>, e: RemoteEntryView) -> Option<(RemoteEntryView, bool)> {
    if normalize_spec(requested) == normalize_spec(e.href) {
        None
    } else {
        let rel = entry_path_spec(e.href, base);
        if tree_visible(rel) {
            Some((RemoteEntryView { href: rel, ..e }, e.is_collection))
        } else {
            None
        }
    }
}

/// Decides what the walk does with a listed entry (see [`tree_step_spec`]).
pub fn tree_step(requested_url: &str, base_url_path: &str, entry: RemoteEntry) -> (r: Option<(RemoteEntry, bool)>)
    ensures
        match r {
            Some((e, descend)) => tree_step_spec(requested_url@, base_url_path@, entry@) == Some((e@, descend)),
            None => tree_step_spec(requested_url@, base_url_path@, entry@) is None,
        },
{
    if is_same_path(requested_url, entry.href.as_str()) {
        return None;
    }
    let rel = entry_path(entry.href.as_str(), base_url_path);
    if !is_tree_visible(rel.as_str()) {
        return None;
    }
    let descend = entry.is_collection;
    let mut e = entry;
    e.href = rel;
    Some((e, descend))
}

} // verus!
