//! Notes: inline hashtags, tag links, and building notes from Markdown files.
use vstd::prelude::*;
use crate::text::{chars_of, string_of, extend_chars, trim, trim_spec, has_prefix, starts_with, copy_chars};
use crate::search::char_vecs;
use crate::paths::{trim_start_char, trim_start_matches, trim_end_char, trim_end_matches};
use crate::models::{Note, NoteId, NoteView, opt_view, copy_opt, copy_strings, strings_view};
use crate::time::Timestamp;
use crate::ulid::{ulid_text, canonical_ulid, is_ulid_text, parse_ulid};

verus! {

/// The lines of a text as `str::lines` yields them: split at `\n`, a `\r` just before a
/// `\n` dropped, no empty last line after a final line break.
pub open spec fn lines_scan(s: Seq<char>) -> (Seq<Seq<char>>, Seq<char>)
    decreases s.len(),
{
    if s.len() == 0 {
        (Seq::empty(), Seq::empty())
    } else {
        let (done, cur) = lines_scan(s.drop_last());
        if s.last() == '\n' {
            let line = if cur.len() > 0 && cur.last() == '\r' { cur.drop_last() } else { cur };
            (done.push(line), Seq::empty())
        } else {
            (done, cur.push(s.last()))
        }
    }
}

/// The lines of a text (see [`lines_scan`]).
pub open spec fn lines_spec(s: Seq<char>) -> Seq<Seq<char>> {
    let (done, cur) = lines_scan(s);
    if cur.len() > 0 { done.push(cur) } else { done }
}

/// Splits a text into lines (see [`lines_spec`]).
pub fn split_lines(s: &[char]) -> (r: Vec<Vec<char>>)
    ensures
        char_vecs(r@) == lines_spec(s@),
{
    let mut done: Vec<Vec<char>> = Vec::new();
    let mut cur: Vec<char> = Vec::new();
    let mut i: usize = 0;
    while i < s.len()
        invariant
            i <= s.len(),
            (char_vecs(done@), cur@) == lines_scan(s@.take(i as int)),
        decreases s.len() - i,
    {
        let c = s[i];
        proof {
            assert(s@.take(i + 1).drop_last() =~= s@.take(i as int));
        }
        if c == '\n' {
            let mut line = cur;
            if line.len() > 0 && line[line.len() - 1] == '\r' {
                line.pop();
            }
            let ghost before = done@;
            let ghost lv = line@;
            done.push(line);
            cur = Vec::new();
            proof {
                assert(char_vecs(done@) =~= char_vecs(before).push(lv));
            }
        } else {
            cur.push(c);
        }
        i += 1;
    }
    assert(s@.take(s.len() as int) =~= s@);
    if cur.len() > 0 {
        let ghost before = done@;
        let ghost cv = cur@;
        done.push(cur);
        assert(char_vecs(done@) =~= char_vecs(before).push(cv));
    }
    done
}

/// "```": the fence of a code block.
pub open spec fn code_fence() -> Seq<char> {
    seq!['`', '`', '`']
}

/// Text cleaned of code, with whether a code block and an inline code span are open.
#[verifier::ext_equal]
pub struct CleanState {
    pub out: Seq<char>,
    pub in_block: bool,
    pub in_inline: bool,
}

/// One line's characters outside inline code spans (a backquote toggles the span, which
/// may stay open across lines).
pub open spec fn strip_inline(chars: Seq<char>, in_inline: bool) -> (Seq<char>, bool)
    decreases chars.len(),
{
    if chars.len() == 0 {
        (Seq::empty(), in_inline)
    } else {
        let (kept, open) = strip_inline(chars.drop_last(), in_inline);
        let c = chars.last();
        if c == '`' {
            (kept, !open)
        } else if !open {
            (kept.push(c), open)
        } else {
            (kept, open)
        }
    }
}

/// Processing one line: a fence line toggles the code block and is dropped; lines inside
/// a code block are dropped; other lines keep their characters outside inline code, and
/// a line break.
pub open spec fn clean_line(st: CleanState, line: Seq<char>) -> CleanState {
    if has_prefix(trim_spec(line), code_fence()) {
        CleanState { in_block: !st.in_block, ..st }
    } else if st.in_block {
        st
    } else {
        let (kept, open) = strip_inline(line, st.in_inline);
        CleanState { out: st.out + kept + seq!['\n'], in_block: st.in_block, in_inline: open }
    }
}

/// Processing the lines in order.
pub open spec fn clean_lines(lines: Seq<Seq<char>>) -> CleanState
    decreases lines.len(),
{
    if lines.len() == 0 {
        CleanState { out: Seq::empty(), in_block: false, in_inline: false }
    } else {
        clean_line(clean_lines(lines.drop_last()), lines.last())
    }
}

/// A note body without its code: fenced code blocks and inline code spans removed, every
/// other line ending in a line break.
pub open spec fn clean_body_spec(body: Seq<char>) -> Seq<char> {
    clean_lines(lines_spec(body)).out
}

/// Removes code from a note body (see [`clean_body_spec`]).
pub fn clean_body_for_tags(body: &str) -> (r: String)
    ensures
        r@ == clean_body_spec(body@),
{
    let b = chars_of(body);
    let lines = split_lines(&b);
    let ghost lv = char_vecs(lines@);
    let mut out: Vec<char> = Vec::new();
    let mut in_block = false;
    let mut in_inline = false;
    let mut i: usize = 0;
    while i < lines.len()
        invariant
            i <= lines.len(),
            lv == char_vecs(lines@),
            clean_lines(lv.take(i as int)) == (CleanState { out: out@, in_block: in_block, in_inline: in_inline }),
        decreases lines.len() - i,
    {
        let line = &lines[i];
        proof {
            assert(lv.take(i + 1).drop_last() =~= lv.take(i as int));
            assert(lv.take(i + 1).last() == line@);
        }
        let t = trim(line.as_slice());
        if starts_with(&t, &['`', '`', '`']) {
            assert(code_fence() =~= (['`', '`', '`'])@);
            in_block = !in_block;
        } else {
            assert(code_fence() =~= (['`', '`', '`'])@);
            if !in_block {
                let ghost start_inline = in_inline;
                let ghost start_out = out@;
                let mut k: usize = 0;
                while k < line.len()
                    invariant
                        k <= line.len(),
                        strip_inline(line@.take(k as int), start_inline) == (out@.skip(start_out.len() as int), in_inline),
                        out@.take(start_out.len() as int) == start_out,
                        start_out.len() <= out@.len(),
                    decreases line.len() - k,
                {
                    let c = line[k];
                    proof {
                        assert(line@.take(k + 1).drop_last() =~= line@.take(k as int));
                    }
                    if c == '`' {
                        in_inline = !in_inline;
                    } else if !in_inline {
                        let ghost before = out@;
                        out.push(c);
                        proof {
                            assert(out@.skip(start_out.len() as int) =~= before.skip(start_out.len() as int).push(c));
                            assert(out@.take(start_out.len() as int) =~= before.take(start_out.len() as int));
                        }
                    }
                    k += 1;
                }
                proof {
                    assert(line@.take(line.len() as int) =~= line@);
                    assert(out@ =~= start_out + out@.skip(start_out.len() as int));
                }
                let ghost kept = out@.skip(start_out.len() as int);
                out.push('\n');
                proof {
                    assert(out@ =~= start_out + kept + seq!['\n']);
                    assert(clean_lines(lv.take(i + 1)) =~= (CleanState { out: out@, in_block: in_block, in_inline: in_inline }));
                }
            }
        }
        i += 1;
    }
    assert(lv.take(lines.len() as int) =~= lv);
    string_of(&out)
}

/// The hashtag texts (group 1 of `(?:^|\s)#([\p{L}\p{N}_-]+)`) the `regex` crate finds in
/// a text, in order.
pub uninterp spec fn hashtag_captures(text: Seq<char>) -> Seq<Seq<char>>;

/// `regex::Regex::captures_iter` with the hashtag pattern, group 1 of every match.
/// Claimed: the result is the named list of the text.
#[verifier::external_body]
fn hashtag_matches(text: &str) -> (r: Vec<String>)
    ensures
        strings_view(r@) == hashtag_captures(text@),
{
    let re = regex::Regex::new(r"(?:^|\s)#([\p{L}\p{N}_-]+)").unwrap();
    re.captures_iter(text).map(|c| c[1].to_string()).collect()
}

/// Whether a character is alphabetic in Unicode's sense (`char::is_alphabetic`).
pub uninterp spec fn unicode_alphabetic(c: char) -> bool;

/// `char::is_alphabetic`. Claimed: the named property; among ASCII characters exactly
/// the letters.
#[verifier::external_body]
fn is_alphabetic(c: char) -> (r: bool)
    ensures
        r == unicode_alphabetic(c),
        (c as u32) < 128 ==> (r == (('a' <= c && c <= 'z') || ('A' <= c && c <= 'Z'))),
{
    c.is_alphabetic()
}

/// `true` when some character of `s` is alphabetic.
pub open spec fn has_letter(s: Seq<char>) -> bool {
    exists|i: int| 0 <= i < s.len() && unicode_alphabetic(#[trigger] s[i])
}

/// The inline tags of candidate hashtag texts, in order: trimmed, kept when non-empty
/// with a letter and not seen before.
pub open spec fn inline_tags_from(caps: Seq<Seq<char>>) -> Seq<Seq<char>>
    decreases caps.len(),
{
    if caps.len() == 0 {
        Seq::empty()
    } else {
        let rest = inline_tags_from(caps.drop_last());
        let t = trim_spec(caps.last());
        if t.len() > 0 && has_letter(t) && !rest.contains(t) { rest.push(t) } else { rest }
    }
}

/// The inline `#tags` of a note body, outside code, in order of first appearance.
pub open spec fn inline_tags_spec(body: Seq<char>) -> Seq<Seq<char>> {
    inline_tags_from(hashtag_captures(clean_body_spec(body)))
}

/// `true` when some character of `s` is alphabetic.
fn any_letter(s: &[char]) -> (r: bool)
    ensures
        r == has_letter(s@),
{
    let mut i: usize = 0;
    while i < s.len()
        invariant
            i <= s.len(),
            forall|j: int| 0 <= j < i ==> !unicode_alphabetic(#[trigger] s@[j]),
        decreases s.len() - i,
    {
        if is_alphabetic(s[i]) {
            return true;
        }
        i += 1;
    }
    false
}

/// `true` when `v` holds a string equal to `s`.
pub fn holds_text(v: &Vec<String>, s: &str) -> (r: bool)
    ensures
        r == strings_view(v@).contains(s@),
{
    let mut i: usize = 0;
    while i < v.len()
        invariant
            i <= v.len(),
            forall|j: int| 0 <= j < i ==> (#[trigger] v@[j])@ != s@,
        decreases v.len() - i,
    {
        if crate::models::str_eq(v[i].as_str(), s) {
            assert(strings_view(v@)[i as int] == s@);
            return true;
        }
        i += 1;
    }
    assert forall|j: int| 0 <= j < strings_view(v@).len() implies strings_view(v@)[j] != s@ by {
        assert(strings_view(v@)[j] == v@[j]@);
    }
    false
}

impl Note {
    /// The inline `#tags` of a note body (see [`inline_tags_spec`]).
    pub fn parse_inline_tags(body: &str) -> (r: Vec<String>)
        ensures
            strings_view(r@) == inline_tags_spec(body@),
    {
        let cleaned = clean_body_for_tags(body);
        let caps = hashtag_matches(cleaned.as_str());
        let ghost cv = strings_view(caps@);
        let mut tags: Vec<String> = Vec::new();
        let mut i: usize = 0;
        while i < caps.len()
            invariant
                i <= caps.len(),
                cv == strings_view(caps@),
                strings_view(tags@) == inline_tags_from(cv.take(i as int)),
            decreases caps.len() - i,
        {
            proof {
                assert(cv.take(i + 1).drop_last() =~= cv.take(i as int));
                assert(cv.take(i + 1).last() == caps@[i as int]@);
            }
            let c = chars_of(caps[i].as_str());
            let t = trim(&c);
            if t.len() > 0 && any_letter(&t) {
                let ts = string_of(&t);
                if !holds_text(&tags, ts.as_str()) {
                    let ghost before = tags@;
                    tags.push(ts);
                    proof {
                        assert(strings_view(tags@) =~= strings_view(before).push(t@));
                    }
                }
            }
            i += 1;
        }
        assert(cv.take(caps.len() as int) =~= cv);
        tags
    }
}

/// A frontmatter tag as stored: trimmed, then its leading `#`s removed.
pub open spec fn clean_tag(t: Seq<char>) -> Seq<char> {
    trim_start_char(trim_spec(t), '#')
}

/// The frontmatter tags as stored, in order, empty ones left out.
pub open spec fn yaml_tags_spec(tags: Seq<Seq<char>>) -> Seq<Seq<char>>
    decreases tags.len(),
{
    if tags.len() == 0 {
        Seq::empty()
    } else {
        let rest = yaml_tags_spec(tags.drop_last());
        let c = clean_tag(tags.last());
        if c.len() > 0 { rest.push(c) } else { rest }
    }
}

/// Where a note's tag comes from.
#[derive(Debug, Clone, Copy, PartialEq, Eq)]
pub enum TagSource {
    Yaml,
    Inline,
}

/// A tag to link to a note, with its source.
#[derive(Debug)]
pub struct TagLink {
    pub name: String,
    pub source: TagSource,
}

/// The tags linked to a note: its frontmatter tags (cleaned), then its inline tags that
/// the frontmatter does not already have.
pub open spec fn tag_links_spec(tags: Seq<Seq<char>>, body: Seq<char>) -> Seq<(Seq<char>, TagSource)> {
    let yaml = yaml_tags_spec(tags);
    yaml.map_values(|t: Seq<char>| (t, TagSource::Yaml))
        + inline_only(inline_tags_spec(body), yaml).map_values(|t: Seq<char>| (t, TagSource::Inline))
}

/// The inline tags not among the frontmatter tags, in order.
pub open spec fn inline_only(inline: Seq<Seq<char>>, yaml: Seq<Seq<char>>) -> Seq<Seq<char>>
    decreases inline.len(),
{
    if inline.len() == 0 {
        Seq::empty()
    } else {
        let rest = inline_only(inline.drop_last(), yaml);
        if yaml.contains(inline.last()) { rest } else { rest.push(inline.last()) }
    }
}

/// The views of tag links.
pub open spec fn link_views(v: Seq<TagLink>) -> Seq<(Seq<char>, TagSource)> {
    v.map_values(|l: TagLink| (l.name@, l.source))
}

/// The tags to link to a note (see [`tag_links_spec`]).
pub fn note_tag_links(tags: &Vec<String>, body: &str) -> (r: Vec<TagLink>)
    ensures
        link_views(r@) == tag_links_spec(strings_view(tags@), body@),
{
    let ghost tv = strings_view(tags@);
    let mut yaml: Vec<String> = Vec::new();
    let mut i: usize = 0;
    while i < tags.len()
        invariant
            i <= tags.len(),
            tv == strings_view(tags@),
            strings_view(yaml@) == yaml_tags_spec(tv.take(i as int)),
        decreases tags.len() - i,
    {
        proof {
            assert(tv.take(i + 1).drop_last() =~= tv.take(i as int));
            assert(tv.take(i + 1).last() == tags@[i as int]@);
        }
        let c = chars_of(tags[i].as_str());
        let t = trim(&c);
        let cleaned = trim_start_matches(&t, '#');
        if cleaned.len() > 0 {
            let ghost before = yaml@;
            yaml.push(string_of(&cleaned));
            proof {
                assert(strings_view(yaml@) =~= strings_view(before).push(cleaned@));
            }
        }
        i += 1;
    }
    assert(tv.take(tags.len() as int) =~= tv);
    let ghost yv = strings_view(yaml@);
    let mut links: Vec<TagLink> = Vec::new();
    let mut j: usize = 0;
    while j < yaml.len()
        invariant
            j <= yaml.len(),
            yv == strings_view(yaml@),
            links@.len() == j,
            link_views(links@) == yv.take(j as int).map_values(|t: Seq<char>| (t, TagSource::Yaml)),
        decreases yaml.len() - j,
    {
        assert(yv[j as int] == yaml@[j as int]@);
        let ghost before = links@;
        let name = yaml[j].clone();
        assert(name@ == yv[j as int]);
        links.push(TagLink { name, source: TagSource::Yaml });
        proof {
            assert(link_views(links@) =~= link_views(before).push((yv[j as int], TagSource::Yaml)));
            assert(yv.take(j + 1).map_values(|t: Seq<char>| (t, TagSource::Yaml)) =~= yv.take(j as int).map_values(|t: Seq<char>| (t, TagSource::Yaml)).push((yv[j as int], TagSource::Yaml)));
            assert(link_views(links@) =~= yv.take(j + 1).map_values(|t: Seq<char>| (t, TagSource::Yaml)));
        }
        j += 1;
    }
    assert(yv.take(yaml.len() as int) =~= yv);
    let inline = Note::parse_inline_tags(body);
    let ghost iv = strings_view(inline@);
    let ghost base = links@;
    let mut k: usize = 0;
    while k < inline.len()
        invariant
            k <= inline.len(),
            iv == strings_view(inline@),
            yv == strings_view(yaml@),
            link_views(base) == yv.map_values(|t: Seq<char>| (t, TagSource::Yaml)),
            link_views(links@) == link_views(base) + inline_only(iv.take(k as int), yv).map_values(|t: Seq<char>| (t, TagSource::Inline)),
        decreases inline.len() - k,
    {
        proof {
            assert(iv.take(k + 1).drop_last() =~= iv.take(k as int));
            assert(iv.take(k + 1).last() == inline@[k as int]@);
        }
        if !holds_text(&yaml, inline[k].as_str()) {
            let ghost before = links@;
            links.push(TagLink { name: inline[k].clone(), source: TagSource::Inline });
            proof {
                assert(link_views(links@) =~= link_views(before).push((inline@[k as int]@, TagSource::Inline)));
                assert(inline_only(iv.take(k + 1), yv).map_values(|t: Seq<char>| (t, TagSource::Inline))
                    =~= inline_only(iv.take(k as int), yv).map_values(|t: Seq<char>| (t, TagSource::Inline)).push((inline@[k as int]@, TagSource::Inline)));
            }
        }
        k += 1;
    }
    assert(iv.take(inline.len() as int) =~= iv);
    links
}


/// A freshly generated ULID in its canonical text (`ulid::Ulid::new().to_string()`).
/// Claimed: only that the text is the canonical text of some 128-bit value; the value
/// depends on the time and on chance.
#[verifier::external_body]
pub(crate) fn new_note_id() -> (r: String)
    ensures
        exists|v: u128| r@ == ulid_text(v),
{
    ulid::Ulid::new().to_string()
}

/// The current time (`chrono::Utc::now()`), as seconds and nanoseconds after the epoch.
/// Nothing is claimed of its value.
#[verifier::external_body]
pub(crate) fn now_timestamp() -> Timestamp {
    let now = chrono::Utc::now();
    Timestamp { secs: now.timestamp(), nanos: now.timestamp_subsec_nanos() }
}

/// The YAML frontmatter of a note file.
#[derive(Debug)]
pub struct Frontmatter {
    pub id: NoteId,
    pub parent_id: Option<NoteId>,
    pub title: String,
    pub color: Option<String>,
    pub pinned: bool,
    pub tags: Vec<String>,
    pub status: String,
    pub created_at: Timestamp,
    pub updated_at: Timestamp,
    pub is_encrypted: bool,
    pub dek_encrypted: Option<String>,
    pub dek_nonce: Option<String>,
}

/// The text that remains of a Markdown file once `gray_matter` (YAML engine) has taken
/// its frontmatter out.
pub uninterp spec fn front_matter_content(text: Seq<char>) -> Seq<char>;

/// `gray_matter::Matter::<YAML>::new().parse(text).content`. Claimed: the result is the
/// named remainder of the text.
#[verifier::external_body]
pub(crate) fn matter_content(text: &str) -> (r: String)
    ensures
        r@ == front_matter_content(text@),
{
    gray_matter::Matter::<gray_matter::engine::YAML>::new().parse(text).content
}

/// `active`.
pub open spec fn active_status() -> Seq<char> {
    seq!['a', 'c', 't', 'i', 'v', 'e']
}

/// `<id>.md`.
pub open spec fn note_file_name(id: Seq<char>) -> Seq<char> {
    id + seq!['.', 'm', 'd']
}

/// `<id>.md` in directory `dir` (at the vault root when `dir` is empty; trailing `/`s of
/// `dir` dropped).
pub open spec fn note_path_in(dir: Seq<char>, id: Seq<char>) -> Seq<char> {
    if dir.len() == 0 {
        note_file_name(id)
    } else {
        trim_end_char(dir, '/') + seq!['/'] + note_file_name(id)
    }
}

/// The path of note `id` in directory `dir` (see [`note_path_in`]).
pub fn note_path(dir: &str, id: &str) -> (r: String)
    ensures
        r@ == note_path_in(dir@, id@),
{
    let d = chars_of(dir);
    let mut out: Vec<char> = Vec::new();
    if d.len() > 0 {
        out = trim_end_matches(&d, '/');
        out.push('/');
    }
    let i = chars_of(id);
    extend_chars(&mut out, &i);
    extend_chars(&mut out, &['.', 'm', 'd']);
    string_of(&out)
}

/// A new empty note with identifier `id` created at `now`: no title, body or tags,
/// `active`, stored as `<id>.md`.
pub open spec fn blank_note(id: Seq<char>, now: Timestamp) -> NoteView {
    NoteView {
        id: id,
        parent_id: None,
        title: Seq::empty(),
        body: Seq::empty(),
        color: None,
        pinned: false,
        tags: Seq::empty(),
        inline_tags: Seq::empty(),
        status: active_status(),
        created_at: now,
        updated_at: now,
        file_path: note_file_name(id),
        is_encrypted: false,
        dek_encrypted: None,
        dek_nonce: None,
    }
}

/// A new empty note (see [`blank_note`]).
pub fn blank_note_with(id: &str, now: Timestamp) -> (r: Note)
    ensures
        r@ == blank_note(id@, now),
{
    let root = String::new();
    let tags: Vec<String> = Vec::new();
    let inline_tags: Vec<String> = Vec::new();
    assert(strings_view(tags@) =~= Seq::<Seq<char>>::empty());
    assert(strings_view(inline_tags@) =~= Seq::<Seq<char>>::empty());
    let r = Note {
        id: NoteId(id.to_string()),
        parent_id: None,
        title: String::new(),
        body: String::new(),
        color: None,
        pinned: false,
        tags,
        inline_tags,
        status: string_of(&['a', 'c', 't', 'i', 'v', 'e']),
        created_at: now,
        updated_at: now,
        file_path: note_path(root.as_str(), id),
        is_encrypted: false,
        dek_encrypted: None,
        dek_nonce: None,
    };
    assert(r@ =~= blank_note(id@, now));
    r
}

/// `true` for the empty text.
pub fn is_empty_text(s: &str) -> (r: bool)
    ensures
        r == (s@.len() == 0),
{
    let c = chars_of(s);
    c.len() == 0
}

impl NoteId {
    /// A fresh identifier: the canonical text of a newly generated ULID.
    pub fn new() -> (r: NoteId)
        ensures
            exists|v: u128| r.0@ == ulid_text(v),
    {
        NoteId(new_note_id())
    }
}

impl Note {
    /// A new empty note with a fresh identifier, created now.
    pub fn new() -> (r: Note)
        ensures
            exists|v: u128| r@ == blank_note(ulid_text(v), r@.created_at),
    {
        let id = NoteId::new();
        let now = now_timestamp();
        blank_note_with(id.0.as_str(), now)
    }

    /// The note as a Markdown document: the given YAML frontmatter text between `---`
    /// fences, then the body.
    pub fn to_markdown(&self, frontmatter_yaml: &str) -> (r: String)
        ensures
            r@ == markdown_document_spec(frontmatter_yaml@, self.body@),
    {
        markdown_document(frontmatter_yaml, self.body.as_str())
    }
}

/// The frontmatter values of a note with its timestamps, encryption fields and tags.
pub open spec fn note_from_front(
    fm: Frontmatter,
    id: Seq<char>,
    title: Seq<char>,
    body: Seq<char>,
    created: Timestamp,
    updated: Timestamp,
    path: Seq<char>,
) -> NoteView {
    NoteView {
        id: id,
        parent_id: match fm.parent_id { Some(p) => Some(p.0@), None => None },
        title: title,
        body: body,
        color: opt_view(fm.color),
        pinned: fm.pinned,
        tags: strings_view(fm.tags@),
        inline_tags: inline_tags_spec(body),
        status: fm.status@,
        created_at: created,
        updated_at: updated,
        file_path: path,
        is_encrypted: fm.is_encrypted,
        dek_encrypted: opt_view(fm.dek_encrypted),
        dek_nonce: opt_view(fm.dek_nonce),
    }
}

/// A note without frontmatter: its title, body, times and path; defaults otherwise.
pub open spec fn note_without_front(
    id: Seq<char>,
    title: Seq<char>,
    body: Seq<char>,
    created: Timestamp,
    updated: Timestamp,
    path: Seq<char>,
) -> NoteView {
    NoteView {
        id: id,
        parent_id: None,
        title: title,
        body: body,
        color: None,
        pinned: false,
        tags: Seq::empty(),
        inline_tags: inline_tags_spec(body),
        status: active_status(),
        created_at: created,
        updated_at: updated,
        file_path: path,
        is_encrypted: false,
        dek_encrypted: None,
        dek_nonce: None,
    }
}

/// Builds a note from frontmatter values.
fn build_from_front(fm: &Frontmatter, id: &str, title: String, body: String, created: Timestamp, updated: Timestamp, path: String) -> (r: Note)
    ensures
        r@ == note_from_front(*fm, id@, title@, body@, created, updated, path@),
{
    let inline_tags = Note::parse_inline_tags(body.as_str());
    let parent_id = match &fm.parent_id {
        Some(p) => Some(p.copy()),
        None => None,
    };
    let tags = copy_strings(&fm.tags);
    assert(strings_view(tags@) == strings_view(fm.tags@));
    Note {
        id: NoteId(id.to_string()),
        parent_id,
        title,
        body,
        color: copy_opt(&fm.color),
        pinned: fm.pinned,
        tags,
        inline_tags,
        status: fm.status.clone(),
        created_at: created,
        updated_at: updated,
        file_path: path,
        is_encrypted: fm.is_encrypted,
        dek_encrypted: copy_opt(&fm.dek_encrypted),
        dek_nonce: copy_opt(&fm.dek_nonce),
    }
}

/// Builds a note without frontmatter.
fn build_without_front(id: &str, title: String, body: String, created: Timestamp, updated: Timestamp, path: String) -> (r: Note)
    ensures
        r@ == note_without_front(id@, title@, body@, created, updated, path@),
{
    let inline_tags = Note::parse_inline_tags(body.as_str());
    let tags: Vec<String> = Vec::new();
    assert(strings_view(tags@) =~= Seq::<Seq<char>>::empty());
    Note {
        id: NoteId(id.to_string()),
        parent_id: None,
        title,
        body,
        color: None,
        pinned: false,
        tags,
        inline_tags,
        status: string_of(&['a', 'c', 't', 'i', 'v', 'e']),
        created_at: created,
        updated_at: updated,
        file_path: path,
        is_encrypted: false,
        dek_encrypted: None,
        dek_nonce: None,
    }
}

/// A note created in the app: the given identifier, title and tags, an empty body,
/// stored as `<id>.md` in the parent folder (at the root when there is none or it is
/// empty), created now.
pub open spec fn created_note_spec(id: Seq<char>, title: Seq<char>, tags: Seq<Seq<char>>, folder: Option<Seq<char>>, now: Timestamp) -> NoteView {
    NoteView {
        id: id,
        parent_id: None,
        title: title,
        body: Seq::empty(),
        color: None,
        pinned: false,
        tags: tags,
        inline_tags: Seq::empty(),
        status: active_status(),
        created_at: now,
        updated_at: now,
        file_path: note_path_in(match folder { Some(f) => f, None => Seq::empty() }, id),
        is_encrypted: false,
        dek_encrypted: None,
        dek_nonce: None,
    }
}

/// A new note from the app (see [`created_note_spec`]).
pub fn created_note(id: &str, title: String, tags: Vec<String>, parent_folder: &Option<String>, now: Timestamp) -> (r: Note)
    ensures
        r@ == created_note_spec(id@, title@, strings_view(tags@), opt_view(*parent_folder), now),
{
    let folder = match parent_folder {
        Some(f) => f.clone(),
        None => String::new(),
    };
    let inline_tags: Vec<String> = Vec::new();
    assert(strings_view(inline_tags@) =~= Seq::<Seq<char>>::empty());
    let file_path = note_path(folder.as_str(), id);
    Note {
        id: NoteId(id.to_string()),
        parent_id: None,
        title,
        body: String::new(),
        color: None,
        pinned: false,
        tags,
        inline_tags,
        status: string_of(&['a', 'c', 't', 'i', 'v', 'e']),
        created_at: now,
        updated_at: now,
        file_path,
        is_encrypted: false,
        dek_encrypted: None,
        dek_nonce: None,
    }
}

/// A note edited in the app: the new title, body, colour, pin and tags, its inline tags
/// read from the new body, updated now; everything else as it was.
pub open spec fn edited_note_spec(
    existing: NoteView,
    title: Seq<char>,
    body: Seq<char>,
    color: Option<Seq<char>>,
    pinned: bool,
    tags: Seq<Seq<char>>,
    now: Timestamp,
) -> NoteView {
    NoteView {
        title: title,
        body: body,
        inline_tags: inline_tags_spec(body),
        color: color,
        pinned: pinned,
        tags: tags,
        updated_at: now,
        ..existing
    }
}

/// Applies an edit to a note (see [`edited_note_spec`]).
pub fn edited_note(existing: &Note, title: String, body: String, color: Option<String>, pinned: bool, tags: Vec<String>, now: Timestamp) -> (r: Note)
    ensures
        r@ == edited_note_spec(existing@, title@, body@, opt_view(color), pinned, strings_view(tags@), now),
{
    let inline_tags = Note::parse_inline_tags(body.as_str());
    let mut r = existing.copy();
    r.title = title;
    r.body = body;
    r.inline_tags = inline_tags;
    r.color = color;
    r.pinned = pinned;
    r.tags = tags;
    r.updated_at = now;
    r
}

/// The remote version of a conflicted note taken over: stored at the local note's
/// path, updated now.
pub fn adopted_remote(remote: Note, relative_path: String, now: Timestamp) -> (r: Note)
    ensures
        r@ == (NoteView { file_path: relative_path@, updated_at: now, ..remote@ }),
{
    let mut r = remote;
    r.file_path = relative_path;
    r.updated_at = now;
    r
}

/// A Markdown note file: `---`, the YAML frontmatter (which ends with a line break),
/// `---`, then the body.
pub open spec fn markdown_document_spec(yaml: Seq<char>, body: Seq<char>) -> Seq<char> {
    seq!['-', '-', '-', '\n'] + yaml + seq!['-', '-', '-', '\n'] + body
}

/// The text of a note file from its serialised frontmatter and its body.
pub fn markdown_document(yaml: &str, body: &str) -> (r: String)
    ensures
        r@ == markdown_document_spec(yaml@, body@),
{
    let mut v: Vec<char> = Vec::new();
    extend_chars(&mut v, &['-', '-', '-', '\n']);
    let y = chars_of(yaml);
    extend_chars(&mut v, y.as_slice());
    extend_chars(&mut v, &['-', '-', '-', '\n']);
    let b = chars_of(body);
    extend_chars(&mut v, b.as_slice());
    assert(v@ =~= markdown_document_spec(yaml@, body@));
    string_of(&v)
}

/// A note file with its frontmatter replaced: the new frontmatter, then the body that
/// followed the old one.
pub fn replace_frontmatter(yaml: &str, text: &str) -> (r: String)
    ensures
        r@ == markdown_document_spec(yaml@, front_matter_content(text@)),
{
    let body = matter_content(text);
    markdown_document(yaml, body.as_str())
}

/// A note read back from a file that has frontmatter: the frontmatter's values, the
/// text after it as the body, stored at `path`.
pub open spec fn file_note_spec(fm: Frontmatter, text: Seq<char>, path: Seq<char>) -> NoteView {
    note_from_front(fm, fm.id.0@, fm.title@, front_matter_content(text), fm.created_at, fm.updated_at, path)
}

/// Builds the note of a file from its parsed frontmatter and its text (see
/// [`file_note_spec`]).
pub fn note_from_file(front: &Frontmatter, text: &str, path: &str) -> (r: Note)
    ensures
        r@ == file_note_spec(*front, text@, path@),
{
    let body = matter_content(text);
    build_from_front(front, front.id.0.as_str(), front.title.clone(), body, front.created_at, front.updated_at, path.to_string())
}

/// A note read from a vault file, and whether the file has to be rewritten (renamed to
/// its identifier and given full frontmatter).
#[derive(Debug)]
pub struct ImportedNote {
    pub note: Note,
    pub rewrite: bool,
}

/// The note a Markdown file holds. A file named by a ULID whose frontmatter has that
/// identifier is taken as it is. Any other file is converted: its identifier comes from
/// the frontmatter, else from the file name when that is a ULID, else `fresh_id`; its
/// title from the frontmatter unless empty, else the file name; its times from the
/// frontmatter, else the file's; it is stored as `<id>.md` in its directory.
pub open spec fn import_spec(
    stem: Seq<char>,
    rel_path: Seq<char>,
    rel_dir: Seq<char>,
    front: Option<Frontmatter>,
    content: Seq<char>,
    file_created: Timestamp,
    file_modified: Timestamp,
    fresh_id: Seq<char>,
) -> (NoteView, bool) {
    let body = front_matter_content(content);
    let valid = is_ulid_text(stem);
    match front {
        Some(fm) => {
            if valid && fm.id.0@ == canonical_ulid(stem)->0 {
                (note_from_front(fm, fm.id.0@, fm.title@, body, fm.created_at, fm.updated_at, rel_path), false)
            } else {
                let title = if fm.title@.len() == 0 { stem } else { fm.title@ };
                (note_from_front(fm, fm.id.0@, title, body, fm.created_at, fm.updated_at, note_path_in(rel_dir, fm.id.0@)), true)
            }
        },
        None => {
            let id = if valid { canonical_ulid(stem)->0 } else { fresh_id };
            (note_without_front(id, stem, body, file_created, file_modified, note_path_in(rel_dir, id)), true)
        },
    }
}

/// Reads the note a Markdown file holds (see [`import_spec`]). `stem` is the file name
/// without extension, `rel_path` and `rel_dir` the file's and its directory's paths in
/// the vault, `front` its frontmatter when it has a valid one, `content` its text.
pub fn import_note(
    stem: &str,
    rel_path: &str,
    rel_dir: &str,
    front: Option<Frontmatter>,
    content: &str,
    file_created: Timestamp,
    file_modified: Timestamp,
    fresh_id: &str,
) -> (r: ImportedNote)
    ensures
        (r.note@, r.rewrite) == import_spec(stem@, rel_path@, rel_dir@, front, content@, file_created, file_modified, fresh_id@),
{
    let body = matter_content(content);
    let canon = parse_ulid(stem);
    match front {
        Some(fm) => {
            let same = match &canon {
                Some(c) => crate::models::str_eq(fm.id.0.as_str(), c.as_str()),
                None => false,
            };
            if same {
                let note = build_from_front(&fm, fm.id.0.as_str(), fm.title.clone(), body, fm.created_at, fm.updated_at, rel_path.to_string());
                ImportedNote { note, rewrite: false }
            } else {
                let title = if is_empty_text(fm.title.as_str()) { stem.to_string() } else { fm.title.clone() };
                let path = note_path(rel_dir, fm.id.0.as_str());
                let note = build_from_front(&fm, fm.id.0.as_str(), title, body, fm.created_at, fm.updated_at, path);
                ImportedNote { note, rewrite: true }
            }
        },
        None => {
            let id: String = match canon {
                Some(c) => c,
                None => fresh_id.to_string(),
            };
            let path = note_path(rel_dir, id.as_str());
            let note = build_without_front(id.as_str(), stem.to_string(), body, file_created, file_modified, path);
            ImportedNote { note, rewrite: true }
        },
    }
}

/// The frontmatter `fm` carries the values of the note `n` (as [`frontmatter_of`] writes
/// them).
pub open spec fn front_of_note(fm: Frontmatter, n: NoteView) -> bool {
    &&& fm.id.0@ == n.id
    &&& (match fm.parent_id { Some(p) => Some(p.0@), None => None }) == n.parent_id
    &&& fm.title@ == n.title
    &&& opt_view(fm.color) == n.color
    &&& fm.pinned == n.pinned
    &&& strings_view(fm.tags@) == n.tags
    &&& fm.status@ == n.status
    &&& fm.created_at == n.created_at && fm.updated_at == n.updated_at
    &&& fm.is_encrypted == n.is_encrypted
    &&& opt_view(fm.dek_encrypted) == n.dek_encrypted && opt_view(fm.dek_nonce) == n.dek_nonce
}

/// A written note reads back as itself: a file whose frontmatter carries the note's
/// values (as [`frontmatter_of`] writes them) and whose text after the frontmatter is the
/// note's body is read, at the note's path, as that very note.
pub proof fn law_written_note_reads_back(n: NoteView, fm: Frontmatter, text: Seq<char>)
    requires
        front_of_note(fm, n),
        n.inline_tags == inline_tags_spec(n.body),
        front_matter_content(text) == n.body,
    ensures
        file_note_spec(fm, text, n.file_path) == n,
{
}

/// Reading a note's own file gives the note back and asks for no rewrite: a file named by
/// the note's canonical identifier, at the note's path, whose frontmatter carries the
/// note's values and whose text after the frontmatter is the note's body. So a file that
/// one import has rewritten is left alone by the next.
pub proof fn law_reimport_is_stable(
    n: NoteView,
    fm: Frontmatter,
    rel_dir: Seq<char>,
    content: Seq<char>,
    file_created: Timestamp,
    file_modified: Timestamp,
    fresh_id: Seq<char>,
)
    requires
        front_of_note(fm, n),
        canonical_ulid(n.id) == Some(n.id),
        n.inline_tags == inline_tags_spec(n.body),
        front_matter_content(content) == n.body,
    ensures
        import_spec(n.id, n.file_path, rel_dir, Some(fm), content, file_created, file_modified, fresh_id) == (n, false),
{
    let r = import_spec(n.id, n.file_path, rel_dir, Some(fm), content, file_created, file_modified, fresh_id);
    assert(r.0 == n);
}

/// The first import settles a file: the note comes back stored as `<id>.md` in the
/// file's directory when the file is to be rewritten, and where it was found otherwise;
/// and importing the file so written (named by the note's canonical identifier, holding
/// the note's frontmatter values and its body) gives the same note and asks for no
/// rewrite.
pub proof fn law_import_settles(
    stem: Seq<char>,
    rel_path: Seq<char>,
    rel_dir: Seq<char>,
    front: Option<Frontmatter>,
    content: Seq<char>,
    file_created: Timestamp,
    file_modified: Timestamp,
    fresh_id: Seq<char>,
    written_front: Frontmatter,
    written_content: Seq<char>,
)
    requires
        canonical_ulid(import_spec(stem, rel_path, rel_dir, front, content, file_created, file_modified, fresh_id).0.id)
            == Some(import_spec(stem, rel_path, rel_dir, front, content, file_created, file_modified, fresh_id).0.id),
        front_of_note(written_front, import_spec(stem, rel_path, rel_dir, front, content, file_created, file_modified, fresh_id).0),
        front_matter_content(written_content) == import_spec(stem, rel_path, rel_dir, front, content, file_created, file_modified, fresh_id).0.body,
    ensures
        ({
            let (n, rewrite) = import_spec(stem, rel_path, rel_dir, front, content, file_created, file_modified, fresh_id);
            &&& rewrite ==> n.file_path == note_path_in(rel_dir, n.id)
            &&& !rewrite ==> n.file_path == rel_path
            &&& import_spec(n.id, n.file_path, rel_dir, Some(written_front), written_content, file_created, file_modified, fresh_id) == (n, false)
        }),
{
    let (n, rewrite) = import_spec(stem, rel_path, rel_dir, front, content, file_created, file_modified, fresh_id);
    assert(n.inline_tags == inline_tags_spec(n.body));
    law_reimport_is_stable(n, written_front, rel_dir, written_content, file_created, file_modified, fresh_id);
}

/// A note made from pasted Markdown: a fresh identifier, the frontmatter's title unless
/// empty (else `title`), its times (else `now`), stored as `<id>.md` in `rel_dir`.
pub open spec fn content_note_spec(
    title: Seq<char>,
    front: Option<Frontmatter>,
    content: Seq<char>,
    rel_dir: Seq<char>,
    id: Seq<char>,
    now: Timestamp,
) -> NoteView {
    let body = front_matter_content(content);
    match front {
        Some(fm) => {
            let t = if fm.title@.len() == 0 { title } else { fm.title@ };
            NoteView { parent_id: None, ..note_from_front(fm, id, t, body, fm.created_at, fm.updated_at, note_path_in(rel_dir, id)) }
        },
        None => note_without_front(id, title, body, now, now, note_path_in(rel_dir, id)),
    }
}

/// Builds a note from pasted Markdown (see [`content_note_spec`]).
pub fn note_from_content(title: &str, front: Option<Frontmatter>, content: &str, rel_dir: &str, id: &str, now: Timestamp) -> (r: Note)
    ensures
        r@ == content_note_spec(title@, front, content@, rel_dir@, id@, now),
{
    let body = matter_content(content);
    let path = note_path(rel_dir, id);
    match front {
        Some(fm) => {
            let t = if is_empty_text(fm.title.as_str()) { title.to_string() } else { fm.title.clone() };
            let mut n = build_from_front(&fm, id, t, body, fm.created_at, fm.updated_at, path);
            n.parent_id = None;
            n
        },
        None => build_without_front(id, title.to_string(), body, now, now, path),
    }
}

/// The frontmatter a note is written with.
pub fn frontmatter_of(note: &Note) -> (r: Frontmatter)
    ensures
        front_of_note(r, note@),
        r.id.0@ == note@.id,
        (match r.parent_id { Some(p) => Some(p.0@), None => None }) == note@.parent_id,
        r.title@ == note@.title,
        opt_view(r.color) == note@.color,
        r.pinned == note@.pinned,
        strings_view(r.tags@) == note@.tags,
        r.status@ == note@.status,
        r.created_at == note@.created_at,
        r.updated_at == note@.updated_at,
        r.is_encrypted == note@.is_encrypted,
        opt_view(r.dek_encrypted) == note@.dek_encrypted,
        opt_view(r.dek_nonce) == note@.dek_nonce,
{
    Frontmatter {
        id: note.id.copy(),
        parent_id: match &note.parent_id {
            Some(p) => Some(p.copy()),
            None => None,
        },
        title: note.title.clone(),
        color: copy_opt(&note.color),
        pinned: note.pinned,
        tags: copy_strings(&note.tags),
        status: note.status.clone(),
        created_at: note.created_at,
        updated_at: note.updated_at,
        is_encrypted: note.is_encrypted,
        dek_encrypted: copy_opt(&note.dek_encrypted),
        dek_nonce: copy_opt(&note.dek_nonce),
    }
}

/// A new clip note: identifier `id`, the page title, the clip body and its inline tags,
/// the clip's tags, created and updated `now`, stored at `path`.
pub open spec fn clip_note_spec(id: Seq<char>, title: Seq<char>, body: Seq<char>, tags: Seq<Seq<char>>, now: Timestamp, path: Seq<char>) -> NoteView {
    NoteView {
        tags: tags,
        title: title,
        ..note_without_front(id, title, body, now, now, path)
    }
}

/// Builds a new clip note (see [`clip_note_spec`]).
pub fn clip_note(id: &str, title: String, body: String, tags: Vec<String>, now: Timestamp, path: String) -> (r: Note)
    ensures
        r@ == clip_note_spec(id@, title@, body@, strings_view(tags@), now, path@),
{
    let mut n = build_without_front(id, title, body, now, now, path);
    n.tags = tags;
    n
}

} // verus!
