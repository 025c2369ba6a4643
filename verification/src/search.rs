//! Accent-folded matching, query building and ranking of search hits.
use vstd::prelude::*;
use crate::models::strings_view;
use crate::text::{
    chars_of, string_of, extend_chars, copy_chars, find_seq, contains, join_chars, is_whitespace,
    is_white_space, contains_seq, first_occurrence, join_with, occurs_at, trim, trim_spec,
};

verus! {

/// What `char::to_lowercase` yields first for a character (the Unicode lowercase
/// mapping's first character).
pub uninterp spec fn unicode_lower_first(c: char) -> char;

/// `char::to_lowercase(c).next()`: the first character of the Unicode lowercase mapping
/// (the iterator always yields at least one character).
#[verifier::external_body]
fn lower_first(c: char) -> (r: char)
    ensures
        r == unicode_lower_first(c),
{
    c.to_lowercase().next().unwrap_or(c)
}

/// Whether a character is alphanumeric in Unicode's sense (`char::is_alphanumeric`).
pub uninterp spec fn unicode_alphanumeric(c: char) -> bool;

/// `true` for ASCII letters and digits.
pub open spec fn ascii_alnum(c: char) -> bool {
    ('a' <= c && c <= 'z') || ('A' <= c && c <= 'Z') || ('0' <= c && c <= '9')
}

/// `char::is_alphanumeric`: alphabetic or numeric in Unicode's sense; among ASCII
/// characters exactly the letters and digits.
#[verifier::external_body]
pub(crate) fn is_alphanumeric(c: char) -> (r: bool)
    ensures
        r == unicode_alphanumeric(c),
        (c as u32) < 128 ==> (r == ascii_alnum(c)),
{
    c.is_alphanumeric()
}

/// Accent folding of one character: Turkish and circumflexed letters map to their plain
/// lower-case letter, ASCII upper case to lower case, other characters to the first
/// character of their Unicode lowercase mapping.
pub open spec fn fold_char(c: char) -> char {
    if c == '\u{e7}' || c == '\u{c7}' {
        'c'
    } else if c == '\u{11f}' || c == '\u{11e}' {
        'g'
    } else if c == '\u{131}' || c == '\u{130}' || c == 'i' || c == 'I' {
        'i'
    } else if c == '\u{f6}' || c == '\u{d6}' {
        'o'
    } else if c == '\u{15f}' || c == '\u{15e}' {
        's'
    } else if c == '\u{fc}' || c == '\u{dc}' {
        'u'
    } else if c == '\u{e2}' || c == '\u{c2}' {
        'a'
    } else if c == '\u{ee}' || c == '\u{ce}' {
        'i'
    } else if c == '\u{fb}' || c == '\u{db}' {
        'u'
    } else if 'A' <= c && c <= 'Z' {
        ((c as int) + 32) as char
    } else if (c as u32) < 128 {
        c
    } else {
        unicode_lower_first(c)
    }
}

/// Accent folding of a text, character by character.
pub open spec fn deaccent_spec(s: Seq<char>) -> Seq<char> {
    s.map_values(|c: char| fold_char(c))
}

/// Accent folding keeps a text's length and folds the Turkish and circumflexed letters to
/// their plain lower-case letters: `ç Ç` to `c`, `ğ Ğ` to `g`, `ı İ I i î Î` to `i`,
/// `ö Ö` to `o`, `ş Ş` to `s`, `ü Ü û Û` to `u`, `â Â` to `a`; ASCII capitals to their
/// lower case; other ASCII characters stay.
pub proof fn law_turkish_letters_fold(s: Seq<char>)
    ensures
        deaccent_spec(s).len() == s.len(),
        forall|i: int| 0 <= i < s.len() ==> {
            let c = #[trigger] s[i];
            let d = deaccent_spec(s)[i];
            &&& (c == '\u{e7}' || c == '\u{c7}') ==> d == 'c'
            &&& (c == '\u{11f}' || c == '\u{11e}') ==> d == 'g'
            &&& (c == '\u{131}' || c == '\u{130}' || c == 'I' || c == 'i' || c == '\u{ee}' || c == '\u{ce}') ==> d == 'i'
            &&& (c == '\u{f6}' || c == '\u{d6}') ==> d == 'o'
            &&& (c == '\u{15f}' || c == '\u{15e}') ==> d == 's'
            &&& (c == '\u{fc}' || c == '\u{dc}' || c == '\u{fb}' || c == '\u{db}') ==> d == 'u'
            &&& (c == '\u{e2}' || c == '\u{c2}') ==> d == 'a'
            &&& ('A' <= c <= 'Z') ==> (d as u32) == (c as u32) + 32
            &&& ((c as u32) < 128 && !('A' <= c <= 'Z')) ==> d == c
        },
{
}

/// Folds one character (see [`fold_char`]).
pub fn fold(c: char) -> (r: char)
    ensures
        r == fold_char(c),
{
    if c == '\u{e7}' || c == '\u{c7}' {
        'c'
    } else if c == '\u{11f}' || c == '\u{11e}' {
        'g'
    } else if c == '\u{131}' || c == '\u{130}' || c == 'i' || c == 'I' {
        'i'
    } else if c == '\u{f6}' || c == '\u{d6}' {
        'o'
    } else if c == '\u{15f}' || c == '\u{15e}' {
        's'
    } else if c == '\u{fc}' || c == '\u{dc}' {
        'u'
    } else if c == '\u{e2}' || c == '\u{c2}' {
        'a'
    } else if c == '\u{ee}' || c == '\u{ce}' {
        'i'
    } else if c == '\u{fb}' || c == '\u{db}' {
        'u'
    } else if 'A' <= c && c <= 'Z' {
        let b: u8 = c as u8;
        ((b + 32) as u8) as char
    } else if (c as u32) < 128 {
        c
    } else {
        lower_first(c)
    }
}

/// Folds every character of `s`.
pub fn deaccent_chars(s: &[char]) -> (r: Vec<char>)
    ensures
        r@ == deaccent_spec(s@),
        r@.len() == s@.len(),
{
    let mut r: Vec<char> = Vec::new();
    let mut i: usize = 0;
    while i < s.len()
        invariant
            i <= s.len(),
            r@ == deaccent_spec(s@.take(i as int)),
        decreases s.len() - i,
    {
        r.push(fold(s[i]));
        proof {
            assert(deaccent_spec(s@.take(i + 1)) =~= deaccent_spec(s@.take(i as int)).push(fold_char(s@[i as int])));
        }
        i += 1;
    }
    assert(s@.take(s.len() as int) =~= s@);
    r
}

/// Accent-folded, lower-cased form of a text used for matching.
pub fn deaccent(s: &str) -> (r: String)
    ensures
        r@ == deaccent_spec(s@),
{
    let c = chars_of(s);
    let d = deaccent_chars(&c);
    string_of(&d)
}

/// `"..."` as characters.
pub open spec fn ellipsis() -> Seq<char> {
    seq!['.', '.', '.']
}

/// `text` shown around a match of `n` characters at `idx`: the match wrapped in `<b>`
/// tags, with at most 15 characters of context on each side (longer context is cut
/// and marked with `...`).
pub open spec fn highlight_around(text: Seq<char>, idx: int, n: int) -> Seq<char> {
    let before = text.take(idx);
    let matched = text.subrange(idx, idx + n);
    let after = text.skip(idx + n);
    let shown_before = if before.len() > 15 {
        ellipsis() + before.skip(before.len() - 15)
    } else {
        before
    };
    let shown_after = if after.len() > 15 {
        after.take(15) + ellipsis()
    } else {
        after
    };
    shown_before + seq!['<', 'b', '>'] + matched + seq!['<', '/', 'b', '>'] + shown_after
}

/// The highlighted excerpt of `text` around the first accent-insensitive occurrence of
/// `query`; `None` when the query is empty or does not occur.
pub open spec fn highlight_spec(text: Seq<char>, query: Seq<char>) -> Option<Seq<char>> {
    if query.len() == 0 {
        None
    } else {
        match first_occurrence(deaccent_spec(text), deaccent_spec(query)) {
            Some(idx) => Some(highlight_around(text, idx, query.len() as int)),
            None => None,
        }
    }
}

/// Builds the highlighted excerpt for a match found at `idx`.
fn highlight_at(text: &[char], idx: usize, n: usize) -> (r: Vec<char>)
    requires
        idx + n <= text.len(),
    ensures
        r@ == highlight_around(text@, idx as int, n as int),
{
    let mut r: Vec<char> = Vec::new();
    let start: usize = if idx > 15 {
        r.push('.');
        r.push('.');
        r.push('.');
        idx - 15
    } else {
        0
    };
    let mut i: usize = start;
    while i < idx
        invariant
            start <= i <= idx,
            idx + n <= text.len(),
            r@ == (if idx > 15 { ellipsis() } else { Seq::<char>::empty() }) + text@.subrange(start as int, i as int),
        decreases idx - i,
    {
        r.push(text[i]);
        i += 1;
    }
    r.push('<');
    r.push('b');
    r.push('>');
    let ghost head = r@;
    let mut j: usize = idx;
    while j < idx + n
        invariant
            idx <= j <= idx + n,
            idx + n <= text.len(),
            r@ == head + text@.subrange(idx as int, j as int),
        decreases idx + n - j,
    {
        r.push(text[j]);
        proof {
            assert(text@.subrange(idx as int, j + 1) =~= text@.subrange(idx as int, j as int).push(text@[j as int]));
        }
        j += 1;
    }
    r.push('<');
    r.push('/');
    r.push('b');
    r.push('>');
    let after_start: usize = idx + n;
    let after_len: usize = text.len() - after_start;
    let end: usize = if after_len > 15 { after_start + 15 } else { text.len() };
    let mut k: usize = after_start;
    let ghost mid = r@;
    while k < end
        invariant
            after_start <= k <= end,
            end <= text.len(),
            r@ == mid + text@.subrange(after_start as int, k as int),
        decreases end - k,
    {
        r.push(text[k]);
        proof {
            assert(text@.subrange(after_start as int, k + 1) =~= text@.subrange(after_start as int, k as int).push(text@[k as int]));
        }
        k += 1;
    }
    if after_len > 15 {
        r.push('.');
        r.push('.');
        r.push('.');
    }
    proof {
        let before = text@.take(idx as int);
        let after = text@.skip(idx + n);
        if idx > 15 {
            assert(before.skip(before.len() - 15) =~= text@.subrange(start as int, idx as int));
        } else {
            assert(before =~= text@.subrange(start as int, idx as int));
        }
        if after_len > 15 {
            assert(after.take(15) =~= text@.subrange(after_start as int, end as int));
        } else {
            assert(after =~= text@.subrange(after_start as int, end as int));
        }
        assert(r@ =~= highlight_around(text@, idx as int, n as int));
    }
    r
}

/// The highlighted excerpt of `text` around the first accent-insensitive occurrence of
/// `query`, or `None` when the query is empty or does not occur.
pub fn highlight_match(text: &str, query: &str) -> (r: Option<String>)
    ensures
        match r {
            Some(h) => highlight_spec(text@, query@) == Some(h@),
            None => highlight_spec(text@, query@) is None,
        },
{
    let q = chars_of(query);
    if q.len() == 0 {
        return None;
    }
    let t = chars_of(text);
    let qn = deaccent_chars(&q);
    let tn = deaccent_chars(&t);
    match find_seq(&tn, &qn) {
        Some(idx) => {
            let h = highlight_at(&t, idx, q.len());
            Some(string_of(&h))
        },
        None => None,
    }
}


/// The maximal runs of characters satisfying `keep`, scanning `s` from the left: the
/// finished runs and the run still open at the end.
pub open spec fn runs_scan(s: Seq<char>, keep: spec_fn(char) -> bool) -> (Seq<Seq<char>>, Seq<char>)
    decreases s.len(),
{
    if s.len() == 0 {
        (Seq::empty(), Seq::empty())
    } else {
        let (done, cur) = runs_scan(s.drop_last(), keep);
        let c = s.last();
        if keep(c) {
            (done, cur.push(c))
        } else if cur.len() > 0 {
            (done.push(cur), Seq::empty())
        } else {
            (done, Seq::empty())
        }
    }
}

/// The non-empty maximal runs of characters of `s` that satisfy `keep`, in order (what
/// splitting on the other characters and dropping empty pieces gives).
pub open spec fn runs(s: Seq<char>, keep: spec_fn(char) -> bool) -> Seq<Seq<char>> {
    let (done, cur) = runs_scan(s, keep);
    if cur.len() > 0 {
        done.push(cur)
    } else {
        done
    }
}

/// The characters a search term is made of.
pub open spec fn term_char(c: char) -> bool {
    unicode_alphanumeric(c)
}

/// The characters a whitespace-separated word is made of.
pub open spec fn word_char(c: char) -> bool {
    !is_white_space(c)
}

/// The views of a vector of character vectors.
pub open spec fn char_vecs(v: Seq<Vec<char>>) -> Seq<Seq<char>> {
    v.map_values(|w: Vec<char>| w@)
}

/// Splits `s` into its maximal runs of alphanumeric characters (`alnum`) or of
/// non-white-space characters (`!alnum`).
pub(crate) fn split_runs(s: &[char], alnum: bool) -> (r: Vec<Vec<char>>)
    ensures
        alnum ==> char_vecs(r@) == runs(s@, |c: char| term_char(c)),
        !alnum ==> char_vecs(r@) == runs(s@, |c: char| word_char(c)),
{
    let ghost keep: spec_fn(char) -> bool = if alnum { |c: char| term_char(c) } else { |c: char| word_char(c) };
    let mut done: Vec<Vec<char>> = Vec::new();
    let mut cur: Vec<char> = Vec::new();
    let mut i: usize = 0;
    while i < s.len()
        invariant
            i <= s.len(),
            keep == (if alnum { |c: char| term_char(c) } else { |c: char| word_char(c) }),
            (char_vecs(done@), cur@) == runs_scan(s@.take(i as int), keep),
        decreases s.len() - i,
    {
        let c = s[i];
        let k = if alnum { is_alphanumeric(c) } else { !is_whitespace(c) };
        proof {
            assert(s@.take(i + 1).drop_last() =~= s@.take(i as int));
            assert(k == keep(c));
        }
        if k {
            cur.push(c);
        } else if cur.len() > 0 {
            let w = cur;
            let ghost before = done@;
            done.push(w);
            cur = Vec::new();
            proof {
                assert(char_vecs(done@) =~= char_vecs(before).push(w@));
            }
        } else {
            assert(cur@ =~= Seq::<char>::empty());
        }
        i += 1;
    }
    assert(s@.take(s.len() as int) =~= s@);
    if cur.len() > 0 {
        let w = cur;
        done.push(w);
        proof {
            assert(char_vecs(done@) =~= runs_scan(s@, keep).0.push(w@));
        }
    }
    done
}

/// `t` with `*` appended to every term.
pub open spec fn starred(terms: Seq<Seq<char>>) -> Seq<Seq<char>> {
    terms.map_values(|t: Seq<char>| t.push('*'))
}

/// `terms` with `*` appended to each, in a vector.
fn star_all(terms: &Vec<Vec<char>>) -> (r: Vec<Vec<char>>)
    ensures
        char_vecs(r@) == starred(char_vecs(terms@)),
{
    let mut r: Vec<Vec<char>> = Vec::new();
    let mut i: usize = 0;
    while i < terms.len()
        invariant
            i <= terms.len(),
            r@.len() == i,
            char_vecs(r@) == starred(char_vecs(terms@)).take(i as int),
        decreases terms.len() - i,
    {
        let mut t = copy_chars(&terms[i]);
        t.push('*');
        r.push(t);
        proof {
            assert(char_vecs(terms@)[i as int] == terms@[i as int]@);
            assert(r@[i as int]@ == char_vecs(terms@)[i as int].push('*'));
            assert(char_vecs(r@) =~= starred(char_vecs(terms@)).take(i + 1));
        }
        i += 1;
    }
    assert(starred(char_vecs(terms@)).take(terms.len() as int) =~= starred(char_vecs(terms@)));
    r
}

/// `true` when a query already uses FTS5 syntax: a quote, a star, or one of the
/// operators ` OR `, ` AND `, ` NOT `.
pub open spec fn has_fts_operators(raw: Seq<char>) -> bool {
    ||| contains_seq(raw, seq!['"'])
    ||| contains_seq(raw, seq!['*'])
    ||| contains_seq(raw, seq![' ', 'O', 'R', ' '])
    ||| contains_seq(raw, seq![' ', 'A', 'N', 'D', ' '])
    ||| contains_seq(raw, seq![' ', 'N', 'O', 'T', ' '])
}

/// The FTS5 query for raw user input: passed through when it already uses FTS5 syntax,
/// else every whitespace-separated word with `*` appended, joined by single spaces.
pub open spec fn fts5_query_spec(raw: Seq<char>) -> Seq<char> {
    if has_fts_operators(raw) {
        raw
    } else {
        join_with(starred(runs(raw, |c: char| word_char(c))), seq![' '])
    }
}

/// A query that already uses FTS5 syntax is passed through untouched: one holding a
/// quote, a star, or one of the operators ` OR `, ` AND `, ` NOT ` is its own FTS5 query.
pub proof fn law_operator_queries_pass_through(raw: Seq<char>)
    requires
        contains_seq(raw, seq!['"']) || contains_seq(raw, seq!['*']) || contains_seq(raw, seq![' ', 'O', 'R', ' '])
            || contains_seq(raw, seq![' ', 'A', 'N', 'D', ' ']) || contains_seq(raw, seq![' ', 'N', 'O', 'T', ' ']),
    ensures
        fts5_query_spec(raw) == raw,
{
}

/// Builds an FTS5-compatible query from raw user input (see [`fts5_query_spec`]).
pub fn build_fts5_query(raw: &str) -> (r: String)
    ensures
        r@ == fts5_query_spec(raw@),
{
    let s = chars_of(raw);
    let has_operators = contains(&s, &['"']) || contains(&s, &['*'])
        || contains(&s, &[' ', 'O', 'R', ' ']) || contains(&s, &[' ', 'A', 'N', 'D', ' '])
        || contains(&s, &[' ', 'N', 'O', 'T', ' ']);
    proof {
        assert(seq!['"'] =~= (['"'])@);
    }
    if has_operators {
        assert(has_fts_operators(raw@)) by {
            assert(seq!['"'] =~= (['"'])@);
            assert(seq!['*'] =~= (['*'])@);
            assert(seq![' ', 'O', 'R', ' '] =~= ([' ', 'O', 'R', ' '])@);
            assert(seq![' ', 'A', 'N', 'D', ' '] =~= ([' ', 'A', 'N', 'D', ' '])@);
            assert(seq![' ', 'N', 'O', 'T', ' '] =~= ([' ', 'N', 'O', 'T', ' '])@);
        }
        return string_of(&s);
    }
    assert(!has_fts_operators(raw@)) by {
        assert(seq!['"'] =~= (['"'])@);
        assert(seq!['*'] =~= (['*'])@);
        assert(seq![' ', 'O', 'R', ' '] =~= ([' ', 'O', 'R', ' '])@);
        assert(seq![' ', 'A', 'N', 'D', ' '] =~= ([' ', 'A', 'N', 'D', ' '])@);
        assert(seq![' ', 'N', 'O', 'T', ' '] =~= ([' ', 'N', 'O', 'T', ' '])@);
    }
    let words = split_runs(&s, false);
    let starred_words = star_all(&words);
    let j = join_chars(&starred_words, &[' ']);
    assert(seq![' '] =~= ([' '])@);
    string_of(&j)
}

/// The FTS5 match expression for accent-folded search terms: each term as a prefix
/// query, all of them required.
pub open spec fn fts_match_spec(terms: Seq<Seq<char>>) -> Seq<char> {
    join_with(starred(terms), seq![' ', 'A', 'N', 'D', ' '])
}

/// What a search query asks for.
pub enum SearchPlan {
    /// The query is blank (or holds nothing to search for): no results.
    Nothing,
    /// `#tag` queries: notes whose tag contains the (trimmed) text after `#`.
    ByTag { tag_query: String },
    /// Term queries: the trimmed query, its accent-folded alphanumeric terms, and the
    /// FTS5 match expression built from them.
    ByTerms { clean_query: String, terms: Vec<String>, fts_query: String },
}

/// The plan for a raw query (see [`SearchPlan`]).
pub open spec fn plan_kind(query: Seq<char>) -> int {
    let clean = trim_spec(query);
    if clean.len() == 0 {
        0
    } else if clean[0] == '#' {
        if trim_spec(clean.skip(1)).len() == 0 { 0 } else { 1 }
    } else if runs(deaccent_spec(clean), |c: char| term_char(c)).len() == 0 {
        0
    } else {
        2
    }
}


/// Converts character vectors into strings.
fn strings_of(v: &Vec<Vec<char>>) -> (r: Vec<String>)
    ensures
        strings_view(r@) == char_vecs(v@),
{
    let mut r: Vec<String> = Vec::new();
    let mut i: usize = 0;
    while i < v.len()
        invariant
            i <= v.len(),
            r@.len() == i,
            strings_view(r@) == char_vecs(v@).take(i as int),
        decreases v.len() - i,
    {
        let si = string_of(v[i].as_slice());
        assert(si@ == char_vecs(v@)[i as int]);
        r.push(si);
        proof {
            assert(strings_view(r@) =~= char_vecs(v@).take(i + 1));
        }
        i += 1;
    }
    assert(char_vecs(v@).take(v.len() as int) =~= char_vecs(v@));
    r
}

/// Decides what a raw search query asks for: nothing for a blank query; a tag search
/// for `#...`; else a term search over the accent-folded alphanumeric terms of the
/// trimmed query, with its FTS5 match expression.
pub fn plan_search(query: &str) -> (r: SearchPlan)
    ensures
        plan_kind(query@) == 0 <==> r is Nothing,
        plan_kind(query@) == 1 <==> r is ByTag,
        plan_kind(query@) == 2 <==> r is ByTerms,
        r matches SearchPlan::ByTag { tag_query } ==> tag_query@ == trim_spec(trim_spec(query@).skip(1)),
        r matches SearchPlan::ByTerms { clean_query, terms, fts_query } ==> {
            &&& clean_query@ == trim_spec(query@)
            &&& strings_view(terms@) == runs(deaccent_spec(trim_spec(query@)), |c: char| term_char(c))
            &&& fts_query@ == fts_match_spec(strings_view(terms@))
        },
{
    let q = chars_of(query);
    let clean = trim(&q);
    if clean.len() == 0 {
        return SearchPlan::Nothing;
    }
    if clean[0] == '#' {
        let rest = crate::paths::tail_from(&clean, 1);
        let tq = trim(&rest);
        if tq.len() == 0 {
            return SearchPlan::Nothing;
        }
        return SearchPlan::ByTag { tag_query: string_of(&tq) };
    }
    let norm = deaccent_chars(&clean);
    let terms = split_runs(&norm, true);
    if terms.len() == 0 {
        return SearchPlan::Nothing;
    }
    let st = star_all(&terms);
    let fq = join_chars(&st, &[' ', 'A', 'N', 'D', ' ']);
    assert(seq![' ', 'A', 'N', 'D', ' '] =~= ([' ', 'A', 'N', 'D', ' '])@);
    SearchPlan::ByTerms { clean_query: string_of(&clean), terms: strings_of(&terms), fts_query: string_of(&fq) }
}


/// A note row as the index returns it.
#[derive(Debug)]
pub struct NoteRow {
    pub id: String,
    pub title: String,
    pub body: String,
    pub file_path: String,
}

/// A row of the full-text index: the note and the snippet the index made for it.
#[derive(Debug)]
pub struct FtsRow {
    pub note: NoteRow,
    pub snippet: Option<String>,
}

/// A (note, tag) pair of the tag index.
#[derive(Debug)]
pub struct TagRow {
    pub note: NoteRow,
    pub tag_name: String,
}

/// A ranked search hit. The score is the sum of the weights of what matched:
/// title 10, tag 7, file name 4, body 1, identifier 1.
#[derive(Debug)]
pub struct SearchResult {
    pub id: crate::models::NoteId,
    pub title: String,
    pub snippet: String,
    pub score: u32,
}

/// Abstract value of a note row.
pub struct RowView {
    pub id: Seq<char>,
    pub title: Seq<char>,
    pub body: Seq<char>,
    pub path: Seq<char>,
}

/// Abstract value of a search hit.
pub struct HitView {
    pub id: Seq<char>,
    pub title: Seq<char>,
    pub snippet: Seq<char>,
    pub score: nat,
}

impl View for NoteRow {
    type V = RowView;

    open spec fn view(&self) -> RowView {
        RowView { id: self.id@, title: self.title@, body: self.body@, path: self.file_path@ }
    }
}

impl View for SearchResult {
    type V = HitView;

    open spec fn view(&self) -> HitView {
        HitView { id: self.id.0@, title: self.title@, snippet: self.snippet@, score: self.score as nat }
    }
}

/// What has been found so far about one note (keyed by the identifier text of its row).
pub struct AccView {
    pub key: Seq<char>,
    pub title: Seq<char>,
    pub body: Seq<char>,
    pub path: Seq<char>,
    pub title_match: bool,
    pub body_match: bool,
    pub tag_match: bool,
    pub id_match: bool,
    pub filename_match: bool,
    pub snippet: Option<Seq<char>>,
}

/// `true` when some term occurs in `hay`.
pub open spec fn any_term(terms: Seq<Seq<char>>, hay: Seq<char>) -> bool {
    exists|i: int| 0 <= i < terms.len() && contains_seq(hay, #[trigger] terms[i])
}

/// Index of the accumulator with `key`, or `accs.len()` when there is none.
pub open spec fn key_index(accs: Seq<AccView>, key: Seq<char>) -> int
    decreases accs.len(),
{
    if accs.len() == 0 {
        0
    } else if accs[0].key == key {
        0
    } else {
        1 + key_index(accs.drop_first(), key)
    }
}

/// A fresh accumulator for a row: nothing matched yet.
pub open spec fn fresh_acc(r: RowView) -> AccView {
    AccView {
        key: r.id,
        title: r.title,
        body: r.body,
        path: r.path,
        title_match: false,
        body_match: false,
        tag_match: false,
        id_match: false,
        filename_match: false,
        snippet: None,
    }
}

/// The accumulators with one for the row's note added when it has none yet.
pub open spec fn upserted(accs: Seq<AccView>, r: RowView) -> Seq<AccView> {
    if key_index(accs, r.id) < accs.len() {
        accs
    } else {
        accs.push(fresh_acc(r))
    }
}

/// Full-text row: the note's title and body matches are recorded and its snippet
/// replaced by the index's.
pub open spec fn fts_step(accs: Seq<AccView>, r: RowView, snippet: Option<Seq<char>>, terms: Seq<Seq<char>>) -> Seq<AccView> {
    let b = upserted(accs, r);
    let i = key_index(b, r.id);
    let x = b[i];
    b.update(i, AccView {
        title_match: x.title_match || any_term(terms, deaccent_spec(r.title)),
        body_match: x.body_match || any_term(terms, deaccent_spec(r.body)),
        snippet: snippet,
        ..x
    })
}

/// Tag row: a tag containing a term marks its note as a tag match.
pub open spec fn tag_step(accs: Seq<AccView>, r: RowView, tag: Seq<char>, terms: Seq<Seq<char>>) -> Seq<AccView> {
    if any_term(terms, deaccent_spec(tag)) {
        let b = upserted(accs, r);
        let i = key_index(b, r.id);
        b.update(i, AccView { tag_match: true, ..b[i] })
    } else {
        accs
    }
}

/// Note row, first pass: a term in the identifier or the file path.
pub open spec fn direct_step(accs: Seq<AccView>, r: RowView, terms: Seq<Seq<char>>) -> Seq<AccView> {
    let id_m = any_term(terms, deaccent_spec(r.id));
    let file_m = any_term(terms, deaccent_spec(r.path));
    if id_m || file_m {
        let b = upserted(accs, r);
        let i = key_index(b, r.id);
        let x = b[i];
        b.update(i, AccView { id_match: x.id_match || id_m, filename_match: x.filename_match || file_m, ..x })
    } else {
        accs
    }
}

/// Note row, second pass: a term anywhere in the title or body (middle-of-word matches
/// too); a body match without a snippet yet gets a highlighted excerpt of the body.
pub open spec fn scan_step(accs: Seq<AccView>, r: RowView, terms: Seq<Seq<char>>, query: Seq<char>) -> Seq<AccView> {
    let title_m = any_term(terms, deaccent_spec(r.title));
    let body_m = any_term(terms, deaccent_spec(r.body));
    if title_m || body_m {
        let b = upserted(accs, r);
        let i = key_index(b, r.id);
        let x = b[i];
        let snippet = if body_m && x.snippet is None { highlight_spec(r.body, query) } else { x.snippet };
        b.update(i, AccView {
            title_match: x.title_match || title_m,
            body_match: x.body_match || body_m,
            snippet: snippet,
            ..x
        })
    } else {
        accs
    }
}

/// The accumulators after the full-text rows.
pub open spec fn fold_fts(rows: Seq<(RowView, Option<Seq<char>>)>, terms: Seq<Seq<char>>) -> Seq<AccView>
    decreases rows.len(),
{
    if rows.len() == 0 {
        Seq::empty()
    } else {
        fts_step(fold_fts(rows.drop_last(), terms), rows.last().0, rows.last().1, terms)
    }
}

/// The accumulators after the tag rows.
pub open spec fn fold_tags(accs: Seq<AccView>, rows: Seq<(RowView, Seq<char>)>, terms: Seq<Seq<char>>) -> Seq<AccView>
    decreases rows.len(),
{
    if rows.len() == 0 {
        accs
    } else {
        tag_step(fold_tags(accs, rows.drop_last(), terms), rows.last().0, rows.last().1, terms)
    }
}

/// The accumulators after the identifier / file-name pass over the notes.
pub open spec fn fold_direct(accs: Seq<AccView>, rows: Seq<RowView>, terms: Seq<Seq<char>>) -> Seq<AccView>
    decreases rows.len(),
{
    if rows.len() == 0 {
        accs
    } else {
        direct_step(fold_direct(accs, rows.drop_last(), terms), rows.last(), terms)
    }
}

/// The accumulators after the title / body pass over the notes.
pub open spec fn fold_scan(accs: Seq<AccView>, rows: Seq<RowView>, terms: Seq<Seq<char>>, query: Seq<char>) -> Seq<AccView>
    decreases rows.len(),
{
    if rows.len() == 0 {
        accs
    } else {
        scan_step(fold_scan(accs, rows.drop_last(), terms, query), rows.last(), terms, query)
    }
}

/// The score of an accumulator: title 10, tag 7, file name 4, body 1, identifier 1.
pub open spec fn acc_score(x: AccView) -> nat {
    (if x.title_match { 10nat } else { 0nat }) + (if x.tag_match { 7nat } else { 0nat }) + (if x.filename_match { 4nat } else { 0nat })
        + (if x.body_match { 1nat } else { 0nat }) + (if x.id_match { 1nat } else { 0nat })
}

/// `s` followed by the highlighted excerpt of `text` around `query`, or by `text` itself.
pub open spec fn labelled(label: Seq<char>, text: Seq<char>, query: Seq<char>) -> Seq<char> {
    match highlight_spec(text, query) {
        Some(h) => label + h,
        None => label + text,
    }
}

/// The snippet shown for a hit: the identifier (`ID: `) when it matched, else the file
/// path (`File: `) when it matched, else the snippet found so far, else `Tag match: `
/// and the query for tag-only matches, else the first 32 characters of the body.
pub open spec fn acc_snippet(x: AccView, id: Seq<char>, query: Seq<char>) -> Seq<char> {
    if x.id_match {
        labelled(seq!['I', 'D', ':', ' '], id, query)
    } else if x.filename_match {
        labelled(seq!['F', 'i', 'l', 'e', ':', ' '], x.path, query)
    } else if x.snippet is Some {
        x.snippet->0
    } else if x.tag_match {
        seq!['T', 'a', 'g', ' ', 'm', 'a', 't', 'c', 'h', ':', ' '] + query
    } else if x.body.len() > 32 {
        x.body.take(32) + ellipsis()
    } else {
        x.body
    }
}

/// The hit an accumulator yields; its identifier is the canonical text of the row's ULID.
pub open spec fn acc_hit(x: AccView, query: Seq<char>) -> HitView {
    let id = crate::ulid::canonical_ulid(x.key)->0;
    HitView { id: id, title: x.title, snippet: acc_snippet(x, id, query), score: acc_score(x) }
}

/// The hits of score exactly `k`, in order.
pub open spec fn with_score(hits: Seq<HitView>, k: nat) -> Seq<HitView>
    decreases hits.len(),
{
    if hits.len() == 0 {
        Seq::empty()
    } else if hits.last().score == k {
        with_score(hits.drop_last(), k).push(hits.last())
    } else {
        with_score(hits.drop_last(), k)
    }
}

/// The hits ordered by score from `k` down to 0, keeping the order among equal scores.
pub open spec fn by_score_from(hits: Seq<HitView>, k: int) -> Seq<HitView>
    decreases k + 1,
{
    if k < 0 {
        Seq::empty()
    } else {
        with_score(hits, k as nat) + by_score_from(hits, k - 1)
    }
}

/// The highest score a hit can have.
pub open spec fn max_score() -> int {
    23
}

/// The ranked result of a term search: every accumulated note as a hit, ordered by
/// descending score (ties in the order the notes were first found), at most 50.
pub open spec fn term_search_spec(
    query: Seq<char>,
    terms: Seq<Seq<char>>,
    fts: Seq<(RowView, Option<Seq<char>>)>,
    tags: Seq<(RowView, Seq<char>)>,
    notes: Seq<RowView>,
) -> Seq<HitView> {
    let accs = fold_scan(fold_direct(fold_tags(fold_fts(fts, terms), tags, terms), notes, terms), notes, terms, query);
    let hits = accs.map_values(|x: AccView| acc_hit(x, query));
    let ranked = by_score_from(hits, max_score());
    if ranked.len() > 50 { ranked.take(50) } else { ranked }
}


proof fn lemma_with_score(hits: Seq<HitView>, k: nat)
    ensures
        forall|i: int| 0 <= i < with_score(hits, k).len() ==> (#[trigger] with_score(hits, k)[i]).score == k,
    decreases hits.len(),
{
    if hits.len() > 0 {
        lemma_with_score(hits.drop_last(), k);
        let prev = with_score(hits.drop_last(), k);
        let r = with_score(hits, k);
        if hits.last().score == k {
            assert forall|i: int| 0 <= i < r.len() implies (#[trigger] r[i]).score == k by {
                if i < prev.len() {
                    assert(r[i] == prev[i]);
                }
            }
        }
    }
}

proof fn lemma_by_score(hits: Seq<HitView>, k: int)
    ensures
        forall|i: int| 0 <= i < by_score_from(hits, k).len() ==> (#[trigger] by_score_from(hits, k)[i]).score <= k,
        forall|i: int, j: int| 0 <= i < j < by_score_from(hits, k).len()
            ==> (#[trigger] by_score_from(hits, k)[i]).score >= (#[trigger] by_score_from(hits, k)[j]).score,
    decreases k + 1,
{
    if k >= 0 {
        lemma_with_score(hits, k as nat);
        lemma_by_score(hits, k - 1);
        let a = with_score(hits, k as nat);
        let b = by_score_from(hits, k - 1);
        let r = by_score_from(hits, k);
        assert(r == a + b);
        assert forall|i: int| 0 <= i < r.len() implies (#[trigger] r[i]).score <= k by {
            if i < a.len() {
                assert(r[i] == a[i]);
            } else {
                assert(r[i] == b[i - a.len()]);
            }
        }
        assert forall|i: int, j: int| 0 <= i < j < r.len() implies (#[trigger] r[i]).score >= (#[trigger] r[j]).score by {
            if j < a.len() {
                assert(r[i] == a[i] && r[j] == a[j]);
            } else if i < a.len() {
                assert(r[i] == a[i] && r[j] == b[j - a.len()]);
            } else {
                assert(r[i] == b[i - a.len()] && r[j] == b[j - a.len()]);
            }
        }
    }
}

/// Search results come best first: no hit scores higher than one before it, none
/// scores above the highest possible score, and there are at most 50.
pub proof fn law_search_ranked(
    query: Seq<char>,
    terms: Seq<Seq<char>>,
    fts: Seq<(RowView, Option<Seq<char>>)>,
    tags: Seq<(RowView, Seq<char>)>,
    notes: Seq<RowView>,
)
    ensures
        term_search_spec(query, terms, fts, tags, notes).len() <= 50,
        forall|i: int, j: int| 0 <= i < j < term_search_spec(query, terms, fts, tags, notes).len()
            ==> (#[trigger] term_search_spec(query, terms, fts, tags, notes)[i]).score
                >= (#[trigger] term_search_spec(query, terms, fts, tags, notes)[j]).score,
        forall|i: int| 0 <= i < term_search_spec(query, terms, fts, tags, notes).len()
            ==> (#[trigger] term_search_spec(query, terms, fts, tags, notes)[i]).score <= max_score(),
{
    let accs = fold_scan(fold_direct(fold_tags(fold_fts(fts, terms), tags, terms), notes, terms), notes, terms, query);
    let hits = accs.map_values(|x: AccView| acc_hit(x, query));
    let ranked = by_score_from(hits, max_score());
    lemma_by_score(hits, max_score());
    let r = term_search_spec(query, terms, fts, tags, notes);
    if ranked.len() > 50 {
        assert(r == ranked.take(50));
        assert forall|i: int, j: int| 0 <= i < j < r.len() implies (#[trigger] r[i]).score >= (#[trigger] r[j]).score by {
            assert(r[i] == ranked[i] && r[j] == ranked[j]);
        }
        assert forall|i: int| 0 <= i < r.len() implies (#[trigger] r[i]).score <= max_score() by {
            assert(r[i] == ranked[i]);
        }
    }
}

/// What has been found so far about one note.
struct HitAcc {
    key: String,
    title: String,
    body: String,
    path: String,
    title_match: bool,
    body_match: bool,
    tag_match: bool,
    id_match: bool,
    filename_match: bool,
    snippet: Option<String>,
}

spec fn acc_view(a: HitAcc) -> AccView {
    AccView {
        key: a.key@,
        title: a.title@,
        body: a.body@,
        path: a.path@,
        title_match: a.title_match,
        body_match: a.body_match,
        tag_match: a.tag_match,
        id_match: a.id_match,
        filename_match: a.filename_match,
        snippet: crate::models::opt_view(a.snippet),
    }
}

spec fn accs_view(v: Seq<HitAcc>) -> Seq<AccView> {
    v.map_values(|a: HitAcc| acc_view(a))
}

/// Every accumulator is keyed by the text of a ULID.
pub open spec fn keys_are_ulids(accs: Seq<AccView>) -> bool {
    forall|j: int| 0 <= j < accs.len() ==> crate::ulid::is_ulid_text(#[trigger] accs[j].key)
}

proof fn lemma_key_index_at(accs: Seq<AccView>, key: Seq<char>, i: int)
    requires
        0 <= i <= accs.len(),
        forall|j: int| 0 <= j < i ==> (#[trigger] accs[j]).key != key,
        i == accs.len() || accs[i].key == key,
    ensures
        key_index(accs, key) == i,
    decreases i,
{
    if i > 0 {
        assert forall|j: int| 0 <= j < i - 1 implies (#[trigger] accs.drop_first()[j]).key != key by {
            assert(accs.drop_first()[j] == accs[j + 1]);
        }
        lemma_key_index_at(accs.drop_first(), key, i - 1);
    }
}

proof fn lemma_key_index_bound(accs: Seq<AccView>, key: Seq<char>)
    ensures
        0 <= key_index(accs, key) <= accs.len(),
        key_index(accs, key) < accs.len() ==> accs[key_index(accs, key)].key == key,
        forall|j: int| 0 <= j < key_index(accs, key) ==> (#[trigger] accs[j]).key != key,
    decreases accs.len(),
{
    if accs.len() > 0 && accs[0].key != key {
        lemma_key_index_bound(accs.drop_first(), key);
        assert forall|j: int| 0 <= j < key_index(accs, key) implies (#[trigger] accs[j]).key != key by {
            if j > 0 {
                assert(accs[j] == accs.drop_first()[j - 1]);
            }
        }
    }
}

/// Index of the accumulator with `key`, or the number of accumulators.
fn find_key(accs: &Vec<HitAcc>, key: &str) -> (r: usize)
    ensures
        r as int == key_index(accs_view(accs@), key@),
{
    let ghost av = accs_view(accs@);
    let mut i: usize = 0;
    while i < accs.len()
        invariant
            i <= accs.len(),
            av == accs_view(accs@),
            forall|j: int| 0 <= j < i ==> (#[trigger] av[j]).key != key@,
        decreases accs.len() - i,
    {
        if crate::models::str_eq(accs[i].key.as_str(), key) {
            proof {
                lemma_key_index_at(av, key@, i as int);
            }
            return i;
        }
        i += 1;
    }
    proof {
        lemma_key_index_at(av, key@, i as int);
    }
    i
}

/// Finds the accumulator of the row's note, adding a fresh one when there is none.
fn upsert(accs: &mut Vec<HitAcc>, r: &NoteRow) -> (i: usize)
    ensures
        accs_view(final(accs)@) == upserted(accs_view(old(accs)@), r@),
        i as int == key_index(accs_view(final(accs)@), r.id@),
        i < final(accs)@.len(),
        final(accs)@.len() <= old(accs)@.len() + 1,
{
    let i = find_key(accs, r.id.as_str());
    proof {
        lemma_key_index_bound(accs_view(accs@), r.id@);
    }
    if i < accs.len() {
        i
    } else {
        let ghost before = accs_view(accs@);
        accs.push(HitAcc {
            key: r.id.clone(),
            title: r.title.clone(),
            body: r.body.clone(),
            path: r.file_path.clone(),
            title_match: false,
            body_match: false,
            tag_match: false,
            id_match: false,
            filename_match: false,
            snippet: None,
        });
        proof {
            let after = accs_view(accs@);
            assert(after =~= before.push(fresh_acc(r@)));
            assert forall|j: int| 0 <= j < i implies (#[trigger] after[j]).key != r.id@ by {
                assert(after[j] == before[j]);
            }
            lemma_key_index_at(after, r.id@, i as int);
        }
        i
    }
}

/// `true` when some term occurs in `hay`.
fn any_term_in(terms: &Vec<Vec<char>>, hay: &[char]) -> (r: bool)
    ensures
        r == any_term(char_vecs(terms@), hay@),
{
    let ghost tv = char_vecs(terms@);
    let mut i: usize = 0;
    while i < terms.len()
        invariant
            i <= terms.len(),
            tv == char_vecs(terms@),
            forall|j: int| 0 <= j < i ==> !contains_seq(hay@, #[trigger] tv[j]),
        decreases terms.len() - i,
    {
        if contains(hay, terms[i].as_slice()) {
            assert(contains_seq(hay@, tv[i as int]));
            return true;
        }
        i += 1;
    }
    false
}

/// `true` when some term occurs in the accent-folded text.
fn any_term_in_text(terms: &Vec<Vec<char>>, text: &str) -> (r: bool)
    ensures
        r == any_term(char_vecs(terms@), deaccent_spec(text@)),
{
    let c = chars_of(text);
    let d = deaccent_chars(&c);
    any_term_in(terms, &d)
}

fn apply_fts(accs: &mut Vec<HitAcc>, row: &FtsRow, terms: &Vec<Vec<char>>)
    requires
        keys_are_ulids(accs_view(old(accs)@)),
        crate::ulid::is_ulid_text(row.note.id@),
    ensures
        accs_view(final(accs)@) == fts_step(accs_view(old(accs)@), row.note@, crate::models::opt_view(row.snippet), char_vecs(terms@)),
        keys_are_ulids(accs_view(final(accs)@)),
        final(accs)@.len() <= old(accs)@.len() + 1,
{
    let tm = any_term_in_text(terms, row.note.title.as_str());
    let bm = any_term_in_text(terms, row.note.body.as_str());
    let i = upsert(accs, &row.note);
    let ghost b = accs_view(accs@);
    if tm {
        accs[i].title_match = true;
    }
    if bm {
        accs[i].body_match = true;
    }
    accs[i].snippet = crate::models::copy_opt(&row.snippet);
    proof {
        assert(accs_view(accs@) =~= fts_step(accs_view(old(accs)@), row.note@, crate::models::opt_view(row.snippet), char_vecs(terms@)));
        assert(keys_are_ulids(accs_view(accs@))) by {
            assert forall|j: int| 0 <= j < accs_view(accs@).len() implies crate::ulid::is_ulid_text(#[trigger] accs_view(accs@)[j].key) by {
                if j < old(accs)@.len() {
                    assert(accs_view(accs@)[j].key == accs_view(old(accs)@)[j].key);
                }
            }
        }
    }
}

fn apply_tag(accs: &mut Vec<HitAcc>, row: &TagRow, terms: &Vec<Vec<char>>)
    requires
        keys_are_ulids(accs_view(old(accs)@)),
        any_term(char_vecs(terms@), deaccent_spec(row.tag_name@)) ==> crate::ulid::is_ulid_text(row.note.id@),
    ensures
        accs_view(final(accs)@) == tag_step(accs_view(old(accs)@), row.note@, row.tag_name@, char_vecs(terms@)),
        keys_are_ulids(accs_view(final(accs)@)),
        final(accs)@.len() <= old(accs)@.len() + 1,
{
    let m = any_term_in_text(terms, row.tag_name.as_str());
    if m {
        let i = upsert(accs, &row.note);
        accs[i].tag_match = true;
        proof {
            assert(accs_view(accs@) =~= tag_step(accs_view(old(accs)@), row.note@, row.tag_name@, char_vecs(terms@)));
            assert forall|j: int| 0 <= j < accs_view(accs@).len() implies crate::ulid::is_ulid_text(#[trigger] accs_view(accs@)[j].key) by {
                if j < old(accs)@.len() {
                    assert(accs_view(accs@)[j].key == accs_view(old(accs)@)[j].key);
                }
            }
        }
    }
}

/// `true` when the note row matches a term in its identifier or file path.
pub open spec fn direct_hit(r: RowView, terms: Seq<Seq<char>>) -> bool {
    any_term(terms, deaccent_spec(r.id)) || any_term(terms, deaccent_spec(r.path))
}

/// `true` when the note row matches a term in its title or body.
pub open spec fn scan_hit(r: RowView, terms: Seq<Seq<char>>) -> bool {
    any_term(terms, deaccent_spec(r.title)) || any_term(terms, deaccent_spec(r.body))
}

fn apply_direct(accs: &mut Vec<HitAcc>, row: &NoteRow, terms: &Vec<Vec<char>>)
    requires
        keys_are_ulids(accs_view(old(accs)@)),
        direct_hit(row@, char_vecs(terms@)) ==> crate::ulid::is_ulid_text(row.id@),
    ensures
        accs_view(final(accs)@) == direct_step(accs_view(old(accs)@), row@, char_vecs(terms@)),
        keys_are_ulids(accs_view(final(accs)@)),
        final(accs)@.len() <= old(accs)@.len() + 1,
{
    let im = any_term_in_text(terms, row.id.as_str());
    let fm = any_term_in_text(terms, row.file_path.as_str());
    if im || fm {
        let i = upsert(accs, row);
        if im {
            accs[i].id_match = true;
        }
        if fm {
            accs[i].filename_match = true;
        }
        proof {
            assert(accs_view(accs@) =~= direct_step(accs_view(old(accs)@), row@, char_vecs(terms@)));
            assert forall|j: int| 0 <= j < accs_view(accs@).len() implies crate::ulid::is_ulid_text(#[trigger] accs_view(accs@)[j].key) by {
                if j < old(accs)@.len() {
                    assert(accs_view(accs@)[j].key == accs_view(old(accs)@)[j].key);
                }
            }
        }
    }
}

fn apply_scan(accs: &mut Vec<HitAcc>, row: &NoteRow, terms: &Vec<Vec<char>>, query: &str)
    requires
        keys_are_ulids(accs_view(old(accs)@)),
        scan_hit(row@, char_vecs(terms@)) ==> crate::ulid::is_ulid_text(row.id@),
    ensures
        accs_view(final(accs)@) == scan_step(accs_view(old(accs)@), row@, char_vecs(terms@), query@),
        keys_are_ulids(accs_view(final(accs)@)),
        final(accs)@.len() <= old(accs)@.len() + 1,
{
    let tm = any_term_in_text(terms, row.title.as_str());
    let bm = any_term_in_text(terms, row.body.as_str());
    if tm || bm {
        let i = upsert(accs, row);
        if tm {
            accs[i].title_match = true;
        }
        if bm {
            accs[i].body_match = true;
            if accs[i].snippet.is_none() {
                match highlight_match(row.body.as_str(), query) {
                    Some(h) => {
                        accs[i].snippet = Some(h);
                    },
                    None => {},
                }
            }
        }
        proof {
            assert(accs_view(accs@) =~= scan_step(accs_view(old(accs)@), row@, char_vecs(terms@), query@));
            assert forall|j: int| 0 <= j < accs_view(accs@).len() implies crate::ulid::is_ulid_text(#[trigger] accs_view(accs@)[j].key) by {
                if j < old(accs)@.len() {
                    assert(accs_view(accs@)[j].key == accs_view(old(accs)@)[j].key);
                }
            }
        }
    }
}


/// The views of full-text rows.
pub open spec fn fts_views(v: Seq<FtsRow>) -> Seq<(RowView, Option<Seq<char>>)> {
    v.map_values(|r: FtsRow| (r.note@, crate::models::opt_view(r.snippet)))
}

/// The views of tag rows.
pub open spec fn tag_views(v: Seq<TagRow>) -> Seq<(RowView, Seq<char>)> {
    v.map_values(|r: TagRow| (r.note@, r.tag_name@))
}

/// The views of note rows.
pub open spec fn row_views(v: Seq<NoteRow>) -> Seq<RowView> {
    v.map_values(|r: NoteRow| r@)
}

/// The views of search hits.
pub open spec fn hit_views(v: Seq<SearchResult>) -> Seq<HitView> {
    v.map_values(|h: SearchResult| h@)
}

/// `label` followed by the highlighted excerpt of `text` around `query`, or by `text`.
fn labelled_text(label: Vec<char>, text: &str, query: &str) -> (r: String)
    ensures
        r@ == labelled(label@, text@, query@),
{
    let mut out = label;
    match highlight_match(text, query) {
        Some(h) => {
            let hc = chars_of(h.as_str());
            extend_chars(&mut out, &hc);
        },
        None => {
            let tc = chars_of(text);
            extend_chars(&mut out, &tc);
        },
    }
    string_of(&out)
}

/// The hit an accumulator yields.
fn hit_of(acc: &HitAcc, query: &str) -> (r: SearchResult)
    requires
        crate::ulid::is_ulid_text(acc.key@),
    ensures
        r@ == acc_hit(acc_view(*acc), query@),
        r.score <= 23,
{
    let id = match crate::ulid::parse_ulid(acc.key.as_str()) {
        Some(c) => c,
        None => {
            proof {
                assert(false);
            }
            String::new()
        },
    };
    let ghost x = acc_view(*acc);
    let snippet = if acc.id_match {
        labelled_text(vec!['I', 'D', ':', ' '], id.as_str(), query)
    } else if acc.filename_match {
        labelled_text(vec!['F', 'i', 'l', 'e', ':', ' '], acc.path.as_str(), query)
    } else if acc.snippet.is_some() {
        match &acc.snippet {
            Some(sn) => sn.clone(),
            None => String::new(),
        }
    } else if acc.tag_match {
        let mut v = vec!['T', 'a', 'g', ' ', 'm', 'a', 't', 'c', 'h', ':', ' '];
        let qc = chars_of(query);
        extend_chars(&mut v, &qc);
        string_of(&v)
    } else {
        let b = chars_of(acc.body.as_str());
        if b.len() > 32 {
            let mut v = crate::paths::head_to(&b, 32);
            v.push('.');
            v.push('.');
            v.push('.');
            assert(v@ =~= x.body.take(32) + ellipsis());
            string_of(&v)
        } else {
            acc.body.clone()
        }
    };
    let mut score: u32 = 0;
    if acc.title_match {
        score = score + 10;
    }
    if acc.tag_match {
        score = score + 7;
    }
    if acc.filename_match {
        score = score + 4;
    }
    if acc.body_match {
        score = score + 1;
    }
    if acc.id_match {
        score = score + 1;
    }
    let r = SearchResult { id: crate::models::NoteId(id), title: acc.title.clone(), snippet, score };
    assert(r@.snippet == acc_snippet(x, crate::ulid::canonical_ulid(x.key)->0, query@));
    r
}

/// Copies a search hit.
fn copy_hit(h: &SearchResult) -> (r: SearchResult)
    ensures
        r@ == h@,
{
    SearchResult { id: h.id.copy(), title: h.title.clone(), snippet: h.snippet.clone(), score: h.score }
}

/// The hits of score exactly `k`, in order.
fn hits_with_score(hits: &Vec<SearchResult>, k: u32) -> (r: Vec<SearchResult>)
    ensures
        hit_views(r@) == with_score(hit_views(hits@), k as nat),
{
    let ghost hv = hit_views(hits@);
    let mut r: Vec<SearchResult> = Vec::new();
    let mut i: usize = 0;
    while i < hits.len()
        invariant
            i <= hits.len(),
            hv == hit_views(hits@),
            hit_views(r@) == with_score(hv.take(i as int), k as nat),
        decreases hits.len() - i,
    {
        let ghost before = r@;
        if hits[i].score == k {
            r.push(copy_hit(&hits[i]));
        }
        proof {
            let t = hv.take(i + 1);
            assert(t.drop_last() =~= hv.take(i as int));
            assert(t.last() == hits@[i as int]@);
            assert(hit_views(r@) =~= with_score(t, k as nat));
        }
        i += 1;
    }
    assert(hv.take(hits.len() as int) =~= hv);
    r
}

/// The hits ordered by descending score (at most `max_score`), ties kept in order.
fn rank_by_score(hits: &Vec<SearchResult>) -> (r: Vec<SearchResult>)
    ensures
        hit_views(r@) == by_score_from(hit_views(hits@), max_score()),
{
    let mut ranked: Vec<SearchResult> = Vec::new();
    let mut k: u32 = 0;
    while k <= 23
        invariant
            k <= 24,
            hit_views(ranked@) == by_score_from(hit_views(hits@), k - 1),
        decreases 24 - k,
    {
        let mut level = hits_with_score(hits, k);
        let ghost lv = level@;
        let ghost rv = ranked@;
        level.append(&mut ranked);
        proof {
            assert(level@ == lv + rv);
            assert(hit_views(level@) =~= hit_views(lv) + hit_views(rv));
        }
        ranked = level;
        k += 1;
    }
    ranked
}

/// Ranks the rows a term search found. `clean_query` is the trimmed query and `terms`
/// its accent-folded terms (see [`plan_search`]); `fts` are the full-text index hits,
/// `tags` every (note, tag) pair and `notes` every note. Each note found gets the
/// weights of what matched (title 10, tag 7, file name 4, body 1, identifier 1) and a
/// snippet; the hits come by descending score, at most 50.
pub fn search_by_terms(
    clean_query: &str,
    terms: &Vec<String>,
    fts: &Vec<FtsRow>,
    tags: &Vec<TagRow>,
    notes: &Vec<NoteRow>,
) -> (r: Vec<SearchResult>)
    requires
        forall|i: int| 0 <= i < fts@.len() ==> crate::ulid::is_ulid_text((#[trigger] fts@[i]).note.id@),
        forall|i: int| 0 <= i < tags@.len() && any_term(strings_view(terms@), deaccent_spec((#[trigger] tags@[i]).tag_name@))
            ==> crate::ulid::is_ulid_text(tags@[i].note.id@),
        forall|i: int| 0 <= i < notes@.len() && (direct_hit((#[trigger] notes@[i])@, strings_view(terms@)) || scan_hit(notes@[i]@, strings_view(terms@)))
            ==> crate::ulid::is_ulid_text(notes@[i].id@),
    ensures
        hit_views(r@) == term_search_spec(clean_query@, strings_view(terms@), fts_views(fts@), tag_views(tags@), row_views(notes@)),
        r@.len() <= 50,
{
    let mut tc: Vec<Vec<char>> = Vec::new();
    let mut t: usize = 0;
    while t < terms.len()
        invariant
            t <= terms.len(),
            tc@.len() == t,
            char_vecs(tc@) == strings_view(terms@).take(t as int),
        decreases terms.len() - t,
    {
        let c = chars_of(terms[t].as_str());
        tc.push(c);
        proof {
            assert(strings_view(terms@)[t as int] == terms@[t as int]@);
            assert(char_vecs(tc@) =~= strings_view(terms@).take(t + 1));
        }
        t += 1;
    }
    let ghost tv = strings_view(terms@);
    assert(tv.take(terms.len() as int) =~= tv);
    assert(char_vecs(tc@) == tv);
    let ghost fv = fts_views(fts@);
    let ghost gv = tag_views(tags@);
    let ghost nv = row_views(notes@);
    let mut accs: Vec<HitAcc> = Vec::new();
    let mut i: usize = 0;
    while i < fts.len()
        invariant
            i <= fts.len(),
            char_vecs(tc@) == tv,
            fv == fts_views(fts@),
            accs_view(accs@) == fold_fts(fv.take(i as int), tv),
            keys_are_ulids(accs_view(accs@)),
            forall|j: int| 0 <= j < fts@.len() ==> crate::ulid::is_ulid_text((#[trigger] fts@[j]).note.id@),
            accs@.len() <= i,
        decreases fts.len() - i,
    {
        apply_fts(&mut accs, &fts[i], &tc);
        proof {
            assert(fv.take(i + 1).drop_last() =~= fv.take(i as int));
        }
        i += 1;
    }
    assert(fv.take(fts.len() as int) =~= fv);
    let ghost a1 = accs_view(accs@);
    let mut i: usize = 0;
    while i < tags.len()
        invariant
            i <= tags.len(),
            char_vecs(tc@) == tv,
            gv == tag_views(tags@),
            accs_view(accs@) == fold_tags(a1, gv.take(i as int), tv),
            keys_are_ulids(accs_view(accs@)),
            forall|j: int| 0 <= j < tags@.len() && any_term(tv, deaccent_spec((#[trigger] tags@[j]).tag_name@))
                ==> crate::ulid::is_ulid_text(tags@[j].note.id@),
        decreases tags.len() - i,
    {
        apply_tag(&mut accs, &tags[i], &tc);
        proof {
            assert(gv.take(i + 1).drop_last() =~= gv.take(i as int));
        }
        i += 1;
    }
    assert(gv.take(tags.len() as int) =~= gv);
    let ghost a2 = accs_view(accs@);
    let mut i: usize = 0;
    while i < notes.len()
        invariant
            i <= notes.len(),
            char_vecs(tc@) == tv,
            nv == row_views(notes@),
            accs_view(accs@) == fold_direct(a2, nv.take(i as int), tv),
            keys_are_ulids(accs_view(accs@)),
            forall|j: int| 0 <= j < notes@.len() && (direct_hit((#[trigger] notes@[j])@, tv) || scan_hit(notes@[j]@, tv))
                ==> crate::ulid::is_ulid_text(notes@[j].id@),
        decreases notes.len() - i,
    {
        apply_direct(&mut accs, &notes[i], &tc);
        proof {
            assert(nv.take(i + 1).drop_last() =~= nv.take(i as int));
        }
        i += 1;
    }
    assert(nv.take(notes.len() as int) =~= nv);
    let ghost a3 = accs_view(accs@);
    let mut i: usize = 0;
    while i < notes.len()
        invariant
            i <= notes.len(),
            char_vecs(tc@) == tv,
            nv == row_views(notes@),
            accs_view(accs@) == fold_scan(a3, nv.take(i as int), tv, clean_query@),
            keys_are_ulids(accs_view(accs@)),
            forall|j: int| 0 <= j < notes@.len() && (direct_hit((#[trigger] notes@[j])@, tv) || scan_hit(notes@[j]@, tv))
                ==> crate::ulid::is_ulid_text(notes@[j].id@),
        decreases notes.len() - i,
    {
        apply_scan(&mut accs, &notes[i], &tc, clean_query);
        proof {
            assert(nv.take(i + 1).drop_last() =~= nv.take(i as int));
        }
        i += 1;
    }
    assert(nv.take(notes.len() as int) =~= nv);
    let ghost av = accs_view(accs@);
    let mut hits: Vec<SearchResult> = Vec::new();
    let mut i: usize = 0;
    while i < accs.len()
        invariant
            i <= accs.len(),
            av == accs_view(accs@),
            keys_are_ulids(av),
            hits@.len() == i,
            hit_views(hits@) == av.take(i as int).map_values(|x: AccView| acc_hit(x, clean_query@)),
        decreases accs.len() - i,
    {
        assert(av[i as int] == acc_view(accs@[i as int]));
        assert(crate::ulid::is_ulid_text(av[i as int].key));
        let h = hit_of(&accs[i], clean_query);
        assert(h@ == acc_hit(av[i as int], clean_query@));
        let ghost before = hits@;
        hits.push(h);
        proof {
            assert(hit_views(hits@) =~= hit_views(before).push(h@));
            assert(av.take(i + 1).map_values(|x: AccView| acc_hit(x, clean_query@)) =~= av.take(i as int).map_values(|x: AccView| acc_hit(x, clean_query@)).push(acc_hit(av[i as int], clean_query@)));
            assert(hit_views(hits@) =~= av.take(i + 1).map_values(|x: AccView| acc_hit(x, clean_query@)));
        }
        i += 1;
    }
    assert(av.take(accs.len() as int) =~= av);
    let mut ranked = rank_by_score(&hits);
    if ranked.len() > 50 {
        let ghost before = ranked@;
        ranked.truncate(50);
        assert(hit_views(ranked@) =~= hit_views(before).take(50));
    }
    ranked
}

/// rusqlite's text for a note identifier that is no ULID: the conversion failure at
/// column 0 from text, carrying the `ulid` crate's decode error.
pub uninterp spec fn note_id_conversion_error(id: Seq<char>) -> Seq<char>;

/// `rusqlite::Error::FromSqlConversionFailure(0, Type::Text, e)` displayed, where `e` is
/// the error `ulid::Ulid::from_string` gives for `id` (empty when `id` is a ULID).
#[verifier::external_body]
fn conversion_error_text(id: &str) -> (r: String)
    ensures
        r@ == note_id_conversion_error(id@),
{
    match ulid::Ulid::from_string(id) {
        Ok(_) => String::new(),
        Err(e) => rusqlite::Error::FromSqlConversionFailure(0, rusqlite::types::Type::Text, Box::new(e)).to_string(),
    }
}

/// A note identifier read from an index row: accepted when it is a ULID, else the
/// database error rusqlite reports for the failed conversion.
pub fn checked_note_id(id: &str) -> (r: Result<(), crate::errors::NodaError>)
    ensures
        r is Ok <==> crate::ulid::is_ulid_text(id@),
        r matches Err(e) ==> e is Database && crate::errors::detail_of(e) == note_id_conversion_error(id@),
{
    if crate::ulid::is_ulid(id) {
        Ok(())
    } else {
        Err(crate::errors::NodaError::Database(conversion_error_text(id)))
    }
}

/// `"Tag: #"` followed by the tag.
pub open spec fn tag_snippet(tag: Seq<char>) -> Seq<char> {
    seq!['T', 'a', 'g', ':', ' ', '#'] + tag
}

/// The result of a tag search over (note, tag) rows: a hit of score 7 for every row
/// whose accent-folded tag contains the accent-folded query, in row order; the first
/// such row whose note identifier is no ULID makes it fail with that conversion error.
pub open spec fn tag_search_spec(tag_query: Seq<char>, rows: Seq<(RowView, Seq<char>)>) -> Result<Seq<HitView>, Seq<char>>
    decreases rows.len(),
{
    if rows.len() == 0 {
        Ok(Seq::empty())
    } else {
        match tag_search_spec(tag_query, rows.drop_last()) {
            Err(e) => Err(e),
            Ok(h) => {
                let r = rows.last().0;
                let tag = rows.last().1;
                if contains_seq(deaccent_spec(tag), deaccent_spec(tag_query)) {
                    if crate::ulid::is_ulid_text(r.id) {
                        Ok(h.push(HitView {
                            id: crate::ulid::canonical_ulid(r.id)->0,
                            title: r.title,
                            snippet: tag_snippet(tag),
                            score: 7,
                        }))
                    } else {
                        Err(note_id_conversion_error(r.id))
                    }
                } else {
                    Ok(h)
                }
            },
        }
    }
}

/// Tag search (`#tag` queries): the notes whose tag contains the query, accent-folded
/// (see [`tag_search_spec`]). A matching row with an identifier that is no ULID fails
/// with a database error.
pub fn search_by_tag(tag_query: &str, rows: &Vec<TagRow>) -> (r: Result<Vec<SearchResult>, crate::errors::NodaError>)
    ensures
        match r {
            Ok(v) => tag_search_spec(tag_query@, tag_views(rows@)) == Ok::<Seq<HitView>, Seq<char>>(hit_views(v@)),
            Err(e) => e is Database && tag_search_spec(tag_query@, tag_views(rows@)) == Err::<Seq<HitView>, Seq<char>>(crate::errors::detail_of(e)),
        },
{
    let ghost gv = tag_views(rows@);
    let qc = chars_of(tag_query);
    let qn = deaccent_chars(&qc);
    let mut out: Vec<SearchResult> = Vec::new();
    assert(gv.take(0).len() == 0);
    assert(hit_views(out@) =~= Seq::<HitView>::empty());
    let mut i: usize = 0;
    while i < rows.len()
        invariant
            i <= rows.len(),
            gv == tag_views(rows@),
            qn@ == deaccent_spec(tag_query@),
            tag_search_spec(tag_query@, gv.take(i as int)) == Ok::<Seq<HitView>, Seq<char>>(hit_views(out@)),
        decreases rows.len() - i,
    {
        let row = &rows[i];
        proof {
            assert(gv.take(i + 1).drop_last() =~= gv.take(i as int));
            assert(gv.take(i + 1).last() == (row.note@, row.tag_name@));
        }
        let tc = chars_of(row.tag_name.as_str());
        let tn = deaccent_chars(&tc);
        if contains(&tn, &qn) {
            match crate::ulid::parse_ulid(row.note.id.as_str()) {
                Some(id) => {
                    let mut sn = vec!['T', 'a', 'g', ':', ' ', '#'];
                    extend_chars(&mut sn, &tc);
                    let h = SearchResult {
                        id: crate::models::NoteId(id),
                        title: row.note.title.clone(),
                        snippet: string_of(&sn),
                        score: 7,
                    };
                    let ghost before = out@;
                    out.push(h);
                    proof {
                        assert(hit_views(out@) =~= hit_views(before).push(h@));
                    }
                },
                None => {
                    let msg = conversion_error_text(row.note.id.as_str());
                    proof {
                        lemma_tag_search_error_sticks(tag_query@, gv, i as int + 1);
                    }
                    return Err(crate::errors::NodaError::Database(msg));
                },
            }
        }
        i += 1;
    }
    assert(gv.take(rows.len() as int) =~= gv);
    Ok(out)
}

/// Once a prefix of the rows fails, every longer prefix fails the same way.
proof fn lemma_tag_search_error_sticks(q: Seq<char>, rows: Seq<(RowView, Seq<char>)>, n: int)
    requires
        0 <= n <= rows.len(),
        tag_search_spec(q, rows.take(n)) is Err,
    ensures
        tag_search_spec(q, rows) == tag_search_spec(q, rows.take(n)),
    decreases rows.len() - n,
{
    if n < rows.len() {
        assert(rows.take(n + 1).drop_last() =~= rows.take(n));
        lemma_tag_search_error_sticks(q, rows, n + 1);
    } else {
        assert(rows.take(n) =~= rows);
    }
}

} // verus!
