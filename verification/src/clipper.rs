//! Web clipper: turning a clipped page into a note, or appending it to an earlier clip.
use vstd::prelude::*;
use crate::models::strings_view;
use crate::text::{chars_of, string_of, extend_chars, trim, trim_spec, is_whitespace, is_white_space, find_seq,
    first_occurrence, has_prefix, starts_with, join_chars, join_with};
use crate::paths::{trim_start_char, trim_end_char, leading_count, trailing_count, trim_start_matches, trim_end_matches, tail_from, head_to};
use crate::search::{unicode_alphanumeric, ascii_alnum, is_alphanumeric, char_vecs};
use crate::errors::NodaError;

verus! {

/// `char::is_alphanumeric`: among ASCII characters the letters and digits, beyond ASCII
/// Unicode's alphabetic and numeric characters.
pub open spec fn alnum_char(c: char) -> bool {
    if (c as u32) < 128 { ascii_alnum(c) } else { unicode_alphanumeric(c) }
}

/// A character a file name made from a title may hold: alphanumerics, `-` and `_`.
pub open spec fn kept_char(c: char) -> bool {
    alnum_char(c) || c == '-' || c == '_'
}

/// Characters of a title kept in a file name: alphanumerics, `-` and `_`; white space
/// becomes `_`; anything else is dropped.
pub open spec fn title_chars(s: Seq<char>) -> Seq<char>
    decreases s.len(),
{
    if s.len() == 0 {
        Seq::empty()
    } else {
        let r = title_chars(s.drop_last());
        let c = s.last();
        if kept_char(c) {
            r.push(c)
        } else if is_white_space(c) {
            r.push('_')
        } else {
            r
        }
    }
}

/// Runs of `_` collapsed to one.
pub open spec fn collapse_underscores(s: Seq<char>) -> Seq<char>
    decreases s.len(),
{
    if s.len() == 0 {
        Seq::empty()
    } else {
        let r = collapse_underscores(s.drop_last());
        if s.last() == '_' && r.len() > 0 && r.last() == '_' {
            r
        } else {
            r.push(s.last())
        }
    }
}

/// `Untitled_Clip`.
pub open spec fn untitled_clip() -> Seq<char> {
    seq!['U', 'n', 't', 'i', 't', 'l', 'e', 'd', '_', 'C', 'l', 'i', 'p']
}

/// The file name a clip title gives: its kept characters, runs of `_` collapsed, `_`
/// trimmed from both ends; `Untitled_Clip` when nothing is left.
pub open spec fn sanitize_title_spec(title: Seq<char>) -> Seq<char> {
    let t = trim_start_char(trim_end_char(collapse_underscores(title_chars(title)), '_'), '_');
    if t.len() == 0 {
        untitled_clip()
    } else {
        t
    }
}

proof fn lemma_title_chars_kept(s: Seq<char>)
    ensures
        forall|k: int| 0 <= k < title_chars(s).len() ==> kept_char(#[trigger] title_chars(s)[k]),
        (forall|k: int| 0 <= k < s.len() ==> kept_char(#[trigger] s[k])) ==> title_chars(s) == s,
    decreases s.len(),
{
    if s.len() > 0 {
        lemma_title_chars_kept(s.drop_last());
        let r = title_chars(s.drop_last());
        assert forall|k: int| 0 <= k < title_chars(s).len() implies kept_char(#[trigger] title_chars(s)[k]) by {
            if k < r.len() {
                assert(title_chars(s)[k] == r[k]);
            }
        }
        if forall|k: int| 0 <= k < s.len() ==> kept_char(#[trigger] s[k]) {
            assert forall|k: int| 0 <= k < s.drop_last().len() implies kept_char(#[trigger] s.drop_last()[k]) by {
                assert(s.drop_last()[k] == s[k]);
            }
            assert(kept_char(s[s.len() - 1]));
            assert(s.drop_last().push(s.last()) =~= s);
        }
    }
}

proof fn lemma_collapse(s: Seq<char>)
    ensures
        forall|k: int| 0 <= k < collapse_underscores(s).len() ==> s.contains(#[trigger] collapse_underscores(s)[k]),
        forall|k: int| 0 <= k < collapse_underscores(s).len() - 1 ==>
            !(#[trigger] collapse_underscores(s)[k] == '_' && collapse_underscores(s)[k + 1] == '_'),
        (forall|k: int| 0 <= k < s.len() - 1 ==> !(#[trigger] s[k] == '_' && s[k + 1] == '_')) ==> collapse_underscores(s) == s,
    decreases s.len(),
{
    if s.len() > 0 {
        let p = s.drop_last();
        lemma_collapse(p);
        let r = collapse_underscores(p);
        let c = collapse_underscores(s);
        assert forall|k: int| 0 <= k < c.len() implies s.contains(#[trigger] c[k]) by {
            if k < r.len() {
                assert(c[k] == r[k]);
                let j = choose|j: int| 0 <= j < p.len() && p[j] == r[k];
                assert(s[j] == p[j]);
            } else {
                assert(c[k] == s[s.len() - 1]);
            }
        }
        assert forall|k: int| 0 <= k < c.len() - 1 implies !(#[trigger] c[k] == '_' && c[k + 1] == '_') by {
            if k + 1 < r.len() {
                assert(c[k] == r[k] && c[k + 1] == r[k + 1]);
            } else {
                assert(c[k] == r[k]);
                assert(k == r.len() - 1);
            }
        }
        if forall|k: int| 0 <= k < s.len() - 1 ==> !(#[trigger] s[k] == '_' && s[k + 1] == '_') {
            assert forall|k: int| 0 <= k < p.len() - 1 implies !(#[trigger] p[k] == '_' && p[k + 1] == '_') by {
                assert(p[k] == s[k] && p[k + 1] == s[k + 1]);
            }
            assert(r == p);
            if s.len() > 1 {
                assert(!(s[s.len() - 2] == '_' && s[s.len() - 1] == '_'));
                assert(r.last() == s[s.len() - 2]);
            }
            assert(p.push(s.last()) =~= s);
        }
    }
}

proof fn lemma_trim_end_last(s: Seq<char>, c: char)
    ensures
        0 <= trailing_count(s, c) <= s.len(),
        trim_end_char(s, c).len() == 0 || trim_end_char(s, c).last() != c,
        (s.len() == 0 || s.last() != c) ==> trim_end_char(s, c) == s,
    decreases s.len(),
{
    if s.len() > 0 && s.last() == c {
        lemma_trim_end_last(s.drop_last(), c);
        assert(s.take(s.len() - trailing_count(s, c)) =~= s.drop_last().take(s.drop_last().len() - trailing_count(s.drop_last(), c)));
    } else {
        assert(s.take(s.len() as int) =~= s);
    }
}

proof fn lemma_trim_start_first(s: Seq<char>, c: char)
    ensures
        0 <= leading_count(s, c) <= s.len(),
        trim_start_char(s, c).len() == 0 || trim_start_char(s, c)[0] != c,
        (s.len() == 0 || s[0] != c) ==> trim_start_char(s, c) == s,
    decreases s.len(),
{
    if s.len() > 0 && s[0] == c {
        lemma_trim_start_first(s.drop_first(), c);
        assert(s.skip(1 + leading_count(s.drop_first(), c)) =~= s.drop_first().skip(leading_count(s.drop_first(), c)));
    } else {
        assert(s.skip(0) =~= s);
    }
}

/// A file name is well formed: not empty, only kept characters, no `__`, no `_` at
/// either end.
pub open spec fn clean_file_name(r: Seq<char>) -> bool {
    &&& r.len() > 0
    &&& forall|k: int| 0 <= k < r.len() ==> kept_char(#[trigger] r[k])
    &&& forall|k: int| 0 <= k < r.len() - 1 ==> !(#[trigger] r[k] == '_' && r[k + 1] == '_')
    &&& r[0] != '_' && r.last() != '_'
}

proof fn lemma_clean_is_fixed(r: Seq<char>)
    requires
        clean_file_name(r),
    ensures
        sanitize_title_spec(r) == r,
{
    lemma_title_chars_kept(r);
    lemma_collapse(r);
    lemma_trim_end_last(r, '_');
    lemma_trim_start_first(r, '_');
}

proof fn lemma_untitled_clean()
    ensures
        clean_file_name(untitled_clip()),
{
    let u = untitled_clip();
    assert forall|k: int| 0 <= k < u.len() implies kept_char(#[trigger] u[k]) by {
        assert(u[k] == 'U' || u[k] == 'n' || u[k] == 't' || u[k] == 'i' || u[k] == 'l' || u[k] == 'e'
            || u[k] == 'd' || u[k] == '_' || u[k] == 'C' || u[k] == 'p');
    }
    assert forall|k: int| 0 <= k < u.len() - 1 implies !(#[trigger] u[k] == '_' && u[k + 1] == '_') by {
        if u[k] == '_' {
            assert(k == 8);
        }
    }
}

proof fn lemma_sanitized_clean(title: Seq<char>)
    ensures
        clean_file_name(sanitize_title_spec(title)),
{
    let a = title_chars(title);
    lemma_title_chars_kept(title);
    let b = collapse_underscores(a);
    lemma_collapse(a);
    let e = trim_end_char(b, '_');
    lemma_trim_end_last(b, '_');
    let t = trim_start_char(e, '_');
    lemma_trim_start_first(e, '_');
    let lo = leading_count(e, '_');
    if t.len() == 0 {
        lemma_untitled_clean();
    } else {
        let r = sanitize_title_spec(title);
        assert(r == t);
        assert forall|k: int| 0 <= k < r.len() implies kept_char(#[trigger] r[k]) by {
            assert(r[k] == b[k + lo]);
            assert(a.contains(b[k + lo]));
        }
        assert forall|k: int| 0 <= k < r.len() - 1 implies !(#[trigger] r[k] == '_' && r[k + 1] == '_') by {
            assert(r[k] == b[k + lo] && r[k + 1] == b[k + 1 + lo]);
        }
        assert(r.last() == e.last());
    }
}

/// The file names of clips are well formed and stable: never empty, made of
/// alphanumerics, `-` and `_` only, with no `__`, not starting or ending with `_`; and
/// making a file name of a file name changes nothing.
pub proof fn law_clip_file_names_are_clean(title: Seq<char>)
    ensures
        clean_file_name(sanitize_title_spec(title)),
        sanitize_title_spec(sanitize_title_spec(title)) == sanitize_title_spec(title),
{
    lemma_sanitized_clean(title);
    lemma_clean_is_fixed(sanitize_title_spec(title));
}

/// A page clipped by the browser extension.
#[derive(Debug)]
pub struct ClipperPayload {
    pub title: String,
    pub url: String,
    pub content_markdown: Option<String>,
    pub tags: Vec<String>,
    pub append: Option<bool>,
    pub author: Option<String>,
    pub published_date: Option<String>,
}

/// Turns a clip title into a file name (see [`sanitize_title_spec`]).
pub fn sanitize_title(title: &str) -> (r: String)
    ensures
        r@ == sanitize_title_spec(title@),
{
    let t = chars_of(title);
    let mut kept: Vec<char> = Vec::new();
    let mut i: usize = 0;
    while i < t.len()
        invariant
            i <= t.len(),
            kept@ == title_chars(t@.take(i as int)),
        decreases t.len() - i,
    {
        let c = t[i];
        proof {
            assert(t@.take(i + 1).drop_last() =~= t@.take(i as int));
        }
        if is_alphanumeric(c) || c == '-' || c == '_' {
            kept.push(c);
        } else if is_whitespace(c) {
            kept.push('_');
        }
        i += 1;
    }
    assert(t@.take(t.len() as int) =~= t@);
    let mut collapsed: Vec<char> = Vec::new();
    let mut j: usize = 0;
    while j < kept.len()
        invariant
            j <= kept.len(),
            collapsed@ == collapse_underscores(kept@.take(j as int)),
        decreases kept.len() - j,
    {
        let c = kept[j];
        proof {
            assert(kept@.take(j + 1).drop_last() =~= kept@.take(j as int));
        }
        if !(c == '_' && collapsed.len() > 0 && collapsed[collapsed.len() - 1] == '_') {
            collapsed.push(c);
        }
        j += 1;
    }
    assert(kept@.take(kept.len() as int) =~= kept@);
    let e = trim_end_matches(&collapsed, '_');
    let s = trim_start_matches(&e, '_');
    if s.len() == 0 {
        let d = vec!['U', 'n', 't', 'i', 't', 'l', 'e', 'd', '_', 'C', 'l', 'i', 'p'];
        string_of(&d)
    } else {
        string_of(&s)
    }
}

/// The marker that ends the clipped content of a note.
pub open spec fn clip_boundary() -> Seq<char> {
    seq!['<', '!', '-', '-', ' ', 'n', 'o', 'd', 'a', '-', 'w', 'e', 'b', 'c', 'l', 'i', 'p', 'p', 'e', 'r', ' ', '-', '-', '>']
}

/// The text appended to an earlier clip: a dated heading line and the trimmed content.
pub open spec fn appended_text(date: Seq<char>, markdown: Seq<char>) -> Seq<char> {
    seq!['*', 'A', 'p', 'p', 'e', 'n', 'd', 'e', 'd', ' ', 'v', 'i', 'a', ' ', 'A', 'n', 'd', 'r', 'o', 'i', 'd', ' ', 'o', 'n', ' '] + date + seq![':', '*', '\n'] + trim_spec(markdown)
}

/// An earlier clip with new content appended: before the first clip boundary (both
/// sides trimmed and blank lines between), or at the end followed by a boundary when
/// there is none.
pub open spec fn append_clip_spec(file: Seq<char>, date: Seq<char>, markdown: Seq<char>) -> Seq<char> {
    let added = appended_text(date, markdown);
    let sep = seq!['\n', '\n'];
    match first_occurrence(file, clip_boundary()) {
        Some(pos) => trim_spec(file.take(pos)) + sep + added + sep + trim_spec(file.skip(pos)),
        None => trim_spec(file) + sep + added + sep + clip_boundary(),
    }
}

/// Appends clipped content to the text of an earlier clip (see [`append_clip_spec`]).
pub fn append_clip(file: &str, date: &str, markdown: &str) -> (r: String)
    ensures
        r@ == append_clip_spec(file@, date@, markdown@),
{
    let f = chars_of(file);
    let boundary = ['<', '!', '-', '-', ' ', 'n', 'o', 'd', 'a', '-', 'w', 'e', 'b', 'c', 'l', 'i', 'p', 'p', 'e', 'r', ' ', '-', '-', '>'];
    assert(boundary@ =~= clip_boundary());
    let mut added = vec!['*', 'A', 'p', 'p', 'e', 'n', 'd', 'e', 'd', ' ', 'v', 'i', 'a', ' ', 'A', 'n', 'd', 'r', 'o', 'i', 'd', ' ', 'o', 'n', ' '];
    let d = chars_of(date);
    extend_chars(&mut added, &d);
    extend_chars(&mut added, &[':', '*', '\n']);
    let m = chars_of(markdown);
    let mt = trim(&m);
    extend_chars(&mut added, &mt);
    assert(added@ =~= appended_text(date@, markdown@));
    match find_seq(&f, &boundary) {
        Some(pos) => {
            let before = head_to(&f, pos);
            let after = tail_from(&f, pos);
            let mut out = trim(&before);
            extend_chars(&mut out, &['\n', '\n']);
            extend_chars(&mut out, &added);
            extend_chars(&mut out, &['\n', '\n']);
            let at = trim(&after);
            extend_chars(&mut out, &at);
            string_of(&out)
        },
        None => {
            let mut out = trim(&f);
            extend_chars(&mut out, &['\n', '\n']);
            extend_chars(&mut out, &added);
            extend_chars(&mut out, &['\n', '\n']);
            extend_chars(&mut out, &boundary);
            string_of(&out)
        },
    }
}

/// `clipper/<name>.md`, or `clipper/<name>_<id>.md` when that file already exists.
pub open spec fn clip_path_spec(name: Seq<char>, taken: bool, id: Seq<char>) -> Seq<char> {
    if taken {
        seq!['c', 'l', 'i', 'p', 'p', 'e', 'r', '/'] + name + seq!['_'] + id + seq!['.', 'm', 'd']
    } else {
        seq!['c', 'l', 'i', 'p', 'p', 'e', 'r', '/'] + name + seq!['.', 'm', 'd']
    }
}

/// The vault-relative path of a new clip (see [`clip_path_spec`]).
pub fn clip_path(name: &str, taken: bool, id: &str) -> (r: String)
    ensures
        r@ == clip_path_spec(name@, taken, id@),
{
    let mut v = vec!['c', 'l', 'i', 'p', 'p', 'e', 'r', '/'];
    let n = chars_of(name);
    extend_chars(&mut v, &n);
    if taken {
        v.push('_');
        let i = chars_of(id);
        extend_chars(&mut v, &i);
    }
    extend_chars(&mut v, &['.', 'm', 'd']);
    string_of(&v)
}

/// `Unknown`.
pub open spec fn unknown() -> Seq<char> {
    seq!['U', 'n', 'k', 'n', 'o', 'w', 'n']
}

/// A clipped tag as a hashtag: trimmed, with `#` added unless it has one.
pub open spec fn hashtag_of(t: Seq<char>) -> Seq<char> {
    let tt = trim_spec(t);
    if tt.len() > 0 && tt[0] == '#' { tt } else { seq!['#'] + tt }
}

/// An optional field shown in the clip footer: the value, or `Unknown` when absent or
/// empty.
pub open spec fn shown_or_unknown(v: Option<Seq<char>>) -> Seq<char> {
    match v {
        Some(s) => if s.len() > 0 { s } else { unknown() },
        None => unknown(),
    }
}

/// The body of a new clip: the content, a blank line and the footer (boundary marker,
/// source link, author, publication date, hashtags and the date it was added).
pub open spec fn clip_body_spec(
    markdown: Seq<char>,
    url: Seq<char>,
    author: Option<Seq<char>>,
    published: Option<Seq<char>>,
    tags: Seq<Seq<char>>,
    added: Seq<char>,
) -> Seq<char> {
    let source = if url.len() == 0 { unknown() } else { seq!['[', 'L', 'i', 'n', 'k', ']', '('] + url + seq![')'] };
    let hashtags = if tags.len() == 0 { Seq::empty() } else { join_with(tags.map_values(|t: Seq<char>| hashtag_of(t)), seq![' ']) };
    markdown + seq!['\n', '\n'] + clip_boundary() + seq!['\n', '\u{2014}', '\n', '*', 'A', 'd', 'd', 'e', 'd', ' ', 'v', 'i', 'a', ' ', 'N', 'o', 'd', 'a', 'N', 'o', 't', 'e', 's', ' ', '#', 'w', 'e', 'b', 'c', 'l', 'i', 'p', 'p', 'e', 'r', '*', '\n', '\n', '*', '*', 'S', 'o', 'u', 'r', 'c', 'e', ':', '*', '*', ' '] + source
        + seq!['\n', '*', '*', 'A', 'u', 't', 'h', 'o', 'r', ':', '*', '*', ' '] + shown_or_unknown(author)
        + seq!['\n', '*', '*', 'P', 'u', 'b', 'l', 'i', 's', 'h', 'e', 'd', ':', '*', '*', ' '] + shown_or_unknown(published)
        + seq!['\n', '*', '*', 'T', 'a', 'g', 's', ':', '*', '*', ' '] + hashtags
        + seq!['\n', '*', '*', 'A', 'd', 'd', 'e', 'd', ':', '*', '*', ' '] + added
}

/// The value or `Unknown`.
fn or_unknown(v: &Option<String>) -> (r: Vec<char>)
    ensures
        r@ == shown_or_unknown(crate::models::opt_view(*v)),
{
    match v {
        Some(s) => {
            let c = chars_of(s.as_str());
            if c.len() > 0 { c } else { vec!['U', 'n', 'k', 'n', 'o', 'w', 'n'] }
        },
        None => vec!['U', 'n', 'k', 'n', 'o', 'w', 'n'],
    }
}

/// The tags as hashtags separated by spaces (empty for no tags).
fn hashtags(tags: &Vec<String>) -> (r: Vec<char>)
    ensures
        r@ == (if tags@.len() == 0 { Seq::<char>::empty() } else {
            join_with(strings_view(tags@).map_values(|t: Seq<char>| hashtag_of(t)), seq![' '])
        }),
{
    let ghost tv = strings_view(tags@);
    let mut parts: Vec<Vec<char>> = Vec::new();
    let mut i: usize = 0;
    while i < tags.len()
        invariant
            i <= tags.len(),
            tv == strings_view(tags@),
            parts@.len() == i,
            char_vecs(parts@) == tv.take(i as int).map_values(|t: Seq<char>| hashtag_of(t)),
        decreases tags.len() - i,
    {
        let c = chars_of(tags[i].as_str());
        let tt = trim(&c);
        let h = if tt.len() > 0 && tt[0] == '#' {
            tt
        } else {
            let mut v = vec!['#'];
            extend_chars(&mut v, &tt);
            v
        };
        proof {
            assert(tv[i as int] == tags@[i as int]@);
            assert(h@ == hashtag_of(tv[i as int]));
        }
        let ghost before = parts@;
        let ghost hv = h@;
        parts.push(h);
        proof {
            assert(char_vecs(parts@) =~= char_vecs(before).push(hv));
            assert(tv.take(i + 1).map_values(|t: Seq<char>| hashtag_of(t)) =~= tv.take(i as int).map_values(|t: Seq<char>| hashtag_of(t)).push(hashtag_of(tv[i as int])));
            assert(char_vecs(parts@) =~= tv.take(i + 1).map_values(|t: Seq<char>| hashtag_of(t)));
        }
        i += 1;
    }
    assert(tv.take(tags.len() as int) =~= tv);
    if tags.len() == 0 {
        return Vec::new();
    }
    assert(seq![' '] =~= ([' '])@);
    join_chars(&parts, &[' '])
}

/// The body of a new clip (see [`clip_body_spec`]).
pub fn clip_body(
    markdown: &str,
    url: &str,
    author: &Option<String>,
    published: &Option<String>,
    tags: &Vec<String>,
    added: &str,
) -> (r: String)
    ensures
        r@ == clip_body_spec(markdown@, url@, crate::models::opt_view(*author), crate::models::opt_view(*published),
            strings_view(tags@), added@),
{
    let mut out = chars_of(markdown);
    extend_chars(&mut out, &['\n', '\n']);
    let b = ['<', '!', '-', '-', ' ', 'n', 'o', 'd', 'a', '-', 'w', 'e', 'b', 'c', 'l', 'i', 'p', 'p', 'e', 'r', ' ', '-', '-', '>'];
    extend_chars(&mut out, &b);
    let f1 = ['\n', '\u{2014}', '\n', '*', 'A', 'd', 'd', 'e', 'd', ' ', 'v', 'i', 'a', ' ', 'N', 'o', 'd', 'a', 'N', 'o', 't', 'e', 's', ' ', '#', 'w', 'e', 'b', 'c', 'l', 'i', 'p', 'p', 'e', 'r', '*', '\n', '\n', '*', '*', 'S', 'o', 'u', 'r', 'c', 'e', ':', '*', '*', ' '];
    extend_chars(&mut out, &f1);
    let u = chars_of(url);
    if u.len() == 0 {
        extend_chars(&mut out, &['U', 'n', 'k', 'n', 'o', 'w', 'n']);
    } else {
        extend_chars(&mut out, &['[', 'L', 'i', 'n', 'k', ']', '(']);
        extend_chars(&mut out, &u);
        out.push(')');
    }
    extend_chars(&mut out, &['\n', '*', '*', 'A', 'u', 't', 'h', 'o', 'r', ':', '*', '*', ' ']);
    let a = or_unknown(author);
    extend_chars(&mut out, &a);
    extend_chars(&mut out, &['\n', '*', '*', 'P', 'u', 'b', 'l', 'i', 's', 'h', 'e', 'd', ':', '*', '*', ' ']);
    let p = or_unknown(published);
    extend_chars(&mut out, &p);
    extend_chars(&mut out, &['\n', '*', '*', 'T', 'a', 'g', 's', ':', '*', '*', ' ']);
    let h = hashtags(tags);
    extend_chars(&mut out, &h);
    extend_chars(&mut out, &['\n', '*', '*', 'A', 'd', 'd', 'e', 'd', ':', '*', '*', ' ']);
    let d = chars_of(added);
    extend_chars(&mut out, &d);
    proof {
        assert(b@ =~= clip_boundary());
        assert(out@ =~= clip_body_spec(markdown@, url@, crate::models::opt_view(*author), crate::models::opt_view(*published),
            strings_view(tags@), added@));
    }
    string_of(&out)
}

/// Clipped content supplied with the request is used when it is not blank; otherwise the
/// page has to be fetched.
pub fn supplied_content(content_markdown: &Option<String>) -> (r: Option<String>)
    ensures
        match r {
            Some(s) => crate::models::opt_view(*content_markdown) == Some(s@) && trim_spec(s@).len() > 0,
            None => match crate::models::opt_view(*content_markdown) {
                Some(s) => trim_spec(s).len() == 0,
                None => true,
            },
        },
{
    match content_markdown {
        Some(md) => {
            let c = chars_of(md.as_str());
            let t = trim(&c);
            if t.len() > 0 { Some(md.clone()) } else { None }
        },
        None => None,
    }
}


/// The error text `url::Url::parse` gives for a text, or `None` when it parses.
pub uninterp spec fn url_parse_error(url: Seq<char>) -> Option<Seq<char>>;

/// `url::Url::parse`, reduced to its error text. Claimed: the result is the named one.
#[verifier::external_body]
fn url_error(url: &str) -> (r: Option<String>)
    ensures
        crate::models::opt_view(r) == url_parse_error(url@),
{
    match url::Url::parse(url) {
        Ok(_) => None,
        Err(e) => Some(e.to_string()),
    }
}

/// The outcomes that readabilityrs's extraction can have for a page and its URL: the
/// article's content, or `None` for no article. A relation, not a function: which of
/// them comes depends on the order in which a per-process `HashMap` is walked.
pub uninterp spec fn readable_outcome(html: Seq<char>, url: Seq<char>, article: Option<Seq<char>>) -> bool;

/// readabilityrs: `Readability::new(html, Some(url), None)` then `parse`, giving the
/// article's cleaned HTML content (empty when it has none), `None` when no article is
/// found, or the initialisation error's text. Claimed: initialisation fails exactly when
/// `url::Url::parse` rejects the URL, and what `parse` gives is one of the outcomes that
/// the page and URL can have ([`readable_outcome`]). Which one is not claimed: the
/// candidate ranking walks a `HashMap` of scores and breaks ties in that map's order,
/// which differs from process to process.
#[verifier::external_body]
fn readable_article(html: &str, url: &str) -> (r: Result<Option<String>, String>)
    ensures
        r is Err <==> url_parse_error(url@) is Some,
        r matches Ok(a) ==> readable_outcome(html@, url@, crate::models::opt_view(a)),
{
    match readabilityrs::Readability::new(html, Some(url), None) {
        Ok(r) => match r.parse() {
            Some(a) => Ok(Some(a.content.unwrap_or_default())),
            None => Ok(None),
        },
        Err(e) => Err(e.to_string()),
    }
}

/// The Markdown that `html2md::parse_html` makes of some HTML.
pub uninterp spec fn markdown_of_html(html: Seq<char>) -> Seq<char>;

/// `html2md::parse_html`. Claimed: the result is the named Markdown of the HTML.
#[verifier::external_body]
fn html_to_markdown(html: &str) -> (r: String)
    ensures
        r@ == markdown_of_html(html@),
{
    html2md::parse_html(html)
}

/// `Fetched HTML content is empty`.
pub open spec fn empty_page_message() -> Seq<char> {
    seq!['F', 'e', 't', 'c', 'h', 'e', 'd', ' ', 'H', 'T', 'M', 'L', ' ', 'c', 'o', 'n', 't', 'e', 'n', 't', ' ', 'i', 's', ' ', 'e', 'm', 'p', 't', 'y']
}

/// `Invalid URL: `.
pub open spec fn invalid_url_prefix() -> Seq<char> {
    seq!['I', 'n', 'v', 'a', 'l', 'i', 'd', ' ', 'U', 'R', 'L', ':', ' ']
}

/// `Readability initialization failed: `.
pub open spec fn readability_init_prefix() -> Seq<char> {
    seq!['R', 'e', 'a', 'd', 'a', 'b', 'i', 'l', 'i', 't', 'y', ' ', 'i', 'n', 'i', 't', 'i', 'a', 'l', 'i', 'z', 'a', 't', 'i', 'o', 'n', ' ', 'f', 'a', 'i', 'l', 'e', 'd', ':', ' ']
}

/// `Readability parsing failed`.
pub open spec fn readability_parse_message() -> Seq<char> {
    seq!['R', 'e', 'a', 'd', 'a', 'b', 'i', 'l', 'i', 't', 'y', ' ', 'p', 'a', 'r', 's', 'i', 'n', 'g', ' ', 'f', 'a', 'i', 'l', 'e', 'd']
}

/// What becomes of the readable-article extraction's outcome: the article's content
/// converted to Markdown; no article found is `Readability parsing failed`; a failed
/// initialisation is `Readability initialization failed: <error>`; both vault errors.
pub open spec fn article_markdown_spec(article: Result<Option<Seq<char>>, Seq<char>>) -> Result<Seq<char>, Seq<char>> {
    match article {
        Ok(Some(content)) => Ok(markdown_of_html(content)),
        Ok(None) => Err(readability_parse_message()),
        Err(e) => Err(readability_init_prefix() + e),
    }
}

/// The abstract value of an extraction outcome.
pub open spec fn article_view(article: Result<Option<String>, String>) -> Result<Option<Seq<char>>, Seq<char>> {
    match article {
        Ok(Some(c)) => Ok(Some(c@)),
        Ok(None) => Ok(None),
        Err(e) => Err(e@),
    }
}

/// The Markdown of an extracted article (see [`article_markdown_spec`]); errors are
/// vault errors.
pub fn article_markdown(article: Result<Option<String>, String>) -> (r: Result<String, NodaError>)
    ensures
        match (r, article_markdown_spec(article_view(article))) {
            (Ok(md), Ok(m)) => md@ == m,
            (Err(NodaError::Vault(e)), Err(m)) => e@ == m,
            _ => false,
        },
{
    match article {
        Ok(Some(content)) => Ok(html_to_markdown(content.as_str())),
        Ok(None) => {
            let m = vec!['R', 'e', 'a', 'd', 'a', 'b', 'i', 'l', 'i', 't', 'y', ' ', 'p', 'a', 'r', 's', 'i', 'n', 'g', ' ', 'f', 'a', 'i', 'l', 'e', 'd'];
            Err(NodaError::Vault(string_of(&m)))
        },
        Err(e) => {
            let mut m = vec!['R', 'e', 'a', 'd', 'a', 'b', 'i', 'l', 'i', 't', 'y', ' ', 'i', 'n', 'i', 't', 'i', 'a', 'l', 'i', 'z', 'a', 't', 'i', 'o', 'n', ' ', 'f', 'a', 'i', 'l', 'e', 'd', ':', ' '];
            let ec = chars_of(e.as_str());
            extend_chars(&mut m, &ec);
            Err(NodaError::Vault(string_of(&m)))
        },
    }
}

/// The Markdown of a fetched page: a blank page or an invalid URL fail with a vault
/// error; else the readable article is extracted, and what becomes of the extraction's
/// outcome is [`article_markdown`]'s (whose contract is exact). The extraction runs on
/// this page and URL (its outcome is one of theirs, [`readable_outcome`]); which article
/// it finds, or whether it finds one, is not stated: readabilityrs ranks its
/// candidates by sorting the entries of a `HashMap` of scores, so candidates of equal
/// score come out in that map's per-process order (see `readable_article`). It cannot
/// fail to initialise once the URL parses.
pub fn fetched_markdown(html: &str, url: &str) -> (r: Result<String, NodaError>)
    ensures
        trim_spec(html@).len() == 0 ==> (r matches Err(NodaError::Vault(m)) && m@ == empty_page_message()),
        trim_spec(html@).len() > 0 && url_parse_error(url@) is Some ==>
            (r matches Err(NodaError::Vault(m)) && m@ == invalid_url_prefix() + url_parse_error(url@)->0),
        trim_spec(html@).len() > 0 && url_parse_error(url@) is None ==>
            exists|a: Option<Seq<char>>| #[trigger] readable_outcome(html@, url@, a) && article_markdown_spec(Ok(a)) == match r {
                Ok(md) => Ok(md@),
                Err(e) => Err(crate::errors::detail_of(e)),
            } && (r matches Err(e) ==> e is Vault),
{
    let h = chars_of(html);
    let ht = trim(&h);
    if ht.len() == 0 {
        let m = vec!['F', 'e', 't', 'c', 'h', 'e', 'd', ' ', 'H', 'T', 'M', 'L', ' ', 'c', 'o', 'n', 't', 'e', 'n', 't', ' ', 'i', 's', ' ', 'e', 'm', 'p', 't', 'y'];
        return Err(NodaError::Vault(string_of(&m)));
    }
    match url_error(url) {
        Some(e) => {
            let mut m = vec!['I', 'n', 'v', 'a', 'l', 'i', 'd', ' ', 'U', 'R', 'L', ':', ' '];
            let ec = chars_of(e.as_str());
            extend_chars(&mut m, &ec);
            return Err(NodaError::Vault(string_of(&m)));
        },
        None => {},
    }
    let article = readable_article(html, url);
    let ghost a = article_view(article);
    let r = article_markdown(article);
    assert(a is Ok);
    assert(readable_outcome(html@, url@, a->Ok_0) && article_markdown_spec(Ok(a->Ok_0)) == match r {
        Ok(md) => Ok(md@),
        Err(e) => Err(crate::errors::detail_of(e)),
    });
    r
}

} // verus!
