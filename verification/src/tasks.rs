//! Task lists and daily notes: toggling a task line, and the daily note's sections.
use vstd::prelude::*;
use crate::text::{chars_of, string_of, extend_chars, trim, trim_spec, leading_ws, trailing_ws, has_prefix, starts_with, matches_at, occurs_at,
    contains, contains_seq, join_chars, join_with};
use crate::search::char_vecs;
use crate::notes::{lines_spec, split_lines, inline_tags_spec, active_status};
use crate::models::{Note, NoteId, NoteView, strings_view};
use crate::time::Timestamp;

verus! {

/// Every occurrence of `pat` in `s` replaced by `rep`, scanning from the left without
/// overlaps (as `str::replace`).
pub open spec fn replace_all(s: Seq<char>, pat: Seq<char>, rep: Seq<char>) -> Seq<char>
    decreases s.len(),
{
    if s.len() == 0 {
        Seq::empty()
    } else if pat.len() > 0 && has_prefix(s, pat) {
        rep + replace_all(s.skip(pat.len() as int), pat, rep)
    } else {
        seq![s[0]] + replace_all(s.skip(1), pat, rep)
    }
}

/// Replaces every occurrence of `pat` in `s` by `rep` (see [`replace_all`]).
pub fn replace_chars(s: &[char], pat: &[char], rep: &[char]) -> (r: Vec<char>)
    requires
        pat.len() > 0,
    ensures
        r@ == replace_all(s@, pat@, rep@),
{
    let mut out: Vec<char> = Vec::new();
    let mut i: usize = 0;
    assert(s@.skip(0) =~= s@);
    assert(out@ + replace_all(s@.skip(0), pat@, rep@) =~= replace_all(s@, pat@, rep@));
    while i < s.len()
        invariant
            i <= s.len(),
            pat@.len() > 0,
            out@ + replace_all(s@.skip(i as int), pat@, rep@) == replace_all(s@, pat@, rep@),
        decreases s.len() - i,
    {
        let ghost rest = s@.skip(i as int);
        if matches_at(s, pat, i) {
            proof {
                assert(rest.take(pat@.len() as int) =~= s@.subrange(i as int, i + pat@.len()));
                assert(has_prefix(rest, pat@));
                assert(rest.skip(pat@.len() as int) =~= s@.skip(i + pat@.len()));
                assert(out@ + rep@ + replace_all(s@.skip(i + pat@.len()), pat@, rep@) =~= out@ + replace_all(rest, pat@, rep@));
            }
            extend_chars(&mut out, rep);
            i += pat.len();
        } else {
            proof {
                if has_prefix(rest, pat@) {
                    assert(rest.take(pat@.len() as int) =~= s@.subrange(i as int, i + pat@.len()));
                    assert(occurs_at(s@, pat@, i as int));
                }
                assert(rest.skip(1) =~= s@.skip(i + 1));
                assert(rest[0] == s@[i as int]);
                assert(out@.push(s@[i as int]) + replace_all(s@.skip(i + 1), pat@, rep@) =~= out@ + replace_all(rest, pat@, rep@));
            }
            out.push(s[i]);
            i += 1;
        }
    }
    proof {
        assert(s@.skip(i as int).len() == 0);
        assert(out@ + replace_all(s@.skip(i as int), pat@, rep@) =~= out@);
    }
    out
}

/// The Unicode lower case of a text (`str::to_lowercase`).
pub uninterp spec fn unicode_lowercase(s: Seq<char>) -> Seq<char>;

/// `str::to_lowercase`. Claimed: the result is the named lower case of the text.
#[verifier::external_body]
pub(crate) fn to_lowercase(s: &str) -> (r: String)
    ensures
        r@ == unicode_lowercase(s@),
{
    s.to_lowercase()
}

/// The nine task-line markers: a list bullet (`-`, `*`, `+`) and a box (`[ ]`, `[x]`, `[X]`).
pub open spec fn task_marker(t: Seq<char>) -> bool {
    has_prefix(t, seq!['-', ' ', '[', ' ', ']']) || has_prefix(t, seq!['-', ' ', '[', 'x', ']']) || has_prefix(t, seq!['-', ' ', '[', 'X', ']']) || has_prefix(t, seq!['*', ' ', '[', ' ', ']']) || has_prefix(t, seq!['*', ' ', '[', 'x', ']']) || has_prefix(t, seq!['*', ' ', '[', 'X', ']']) || has_prefix(t, seq!['+', ' ', '[', ' ', ']']) || has_prefix(t, seq!['+', ' ', '[', 'x', ']']) || has_prefix(t, seq!['+', ' ', '[', 'X', ']'])
}

/// A line is the task `target` (lower-cased, trimmed): it starts with a task marker and its
/// trimmed text after the marker, lower-cased, is the target.
pub open spec fn exact_task(line: Seq<char>, target: Seq<char>) -> bool {
    let t = trim_spec(line);
    task_marker(t) && t.len() > 5 && unicode_lowercase(trim_spec(t.skip(5))) == target
}

/// A line is a task whose lower-cased text contains `target`.
pub open spec fn loose_task(line: Seq<char>, target: Seq<char>) -> bool {
    let t = trim_spec(line);
    (has_prefix(t, seq!['-', ' ', '[', ' ']) || has_prefix(t, seq!['*', ' ', '[', ' ']) || has_prefix(t, seq!['+', ' ', '[', ' ']))
        && contains_seq(unicode_lowercase(t), target)
}

/// A task line with its box flipped: an open box `[ ]` is ticked, a ticked one opened
/// (every box of that kind on the line).
pub open spec fn toggled(line: Seq<char>) -> Seq<char> {
    let t = trim_spec(line);
    if contains_seq(t, seq!['[', ' ', ']']) {
        replace_all(line, seq!['[', ' ', ']'], seq!['[', 'x', ']'])
    } else if contains_seq(t, seq!['[', 'x', ']']) {
        replace_all(line, seq!['[', 'x', ']'], seq!['[', ' ', ']'])
    } else if contains_seq(t, seq!['[', 'X', ']']) {
        replace_all(line, seq!['[', 'X', ']'], seq!['[', ' ', ']'])
    } else {
        line
    }
}

proof fn lemma_replace_first(s: Seq<char>, pat: Seq<char>, rep: Seq<char>, k: int)
    requires
        pat.len() > 0,
        rep.len() == pat.len(),
        occurs_at(s, pat, k),
        forall|j: int| 0 <= j < k ==> !occurs_at(s, pat, j),
    ensures
        k + rep.len() <= replace_all(s, pat, rep).len(),
        replace_all(s, pat, rep).take(k) == s.take(k),
        replace_all(s, pat, rep).subrange(k, k + rep.len()) == rep,
    decreases k,
{
    if k == 0 {
        assert(s.subrange(0, pat.len() as int) =~= s.take(pat.len() as int));
        assert(has_prefix(s, pat));
        let r = replace_all(s, pat, rep);
        assert(r == rep + replace_all(s.skip(pat.len() as int), pat, rep));
        assert(r.subrange(0, rep.len() as int) =~= rep);
        assert(r.take(0) =~= s.take(0));
    } else {
        assert(!occurs_at(s, pat, 0));
        if has_prefix(s, pat) {
            assert(s.subrange(0, pat.len() as int) =~= s.take(pat.len() as int));
        }
        let t = s.skip(1);
        assert(occurs_at(t, pat, k - 1)) by {
            assert(t.subrange(k - 1, k - 1 + pat.len()) =~= s.subrange(k, k + pat.len()));
        }
        assert forall|j: int| 0 <= j < k - 1 implies !occurs_at(t, pat, j) by {
            if occurs_at(t, pat, j) {
                assert(t.subrange(j, j + pat.len()) =~= s.subrange(j + 1, j + 1 + pat.len()));
                assert(occurs_at(s, pat, j + 1));
            }
        }
        lemma_replace_first(t, pat, rep, k - 1);
        let r = replace_all(s, pat, rep);
        let rt = replace_all(t, pat, rep);
        assert(r == seq![s[0]] + rt);
        assert(r.take(k) =~= seq![s[0]] + rt.take(k - 1));
        assert(s.take(k) =~= seq![s[0]] + t.take(k - 1));
        assert(r.subrange(k, k + rep.len()) =~= rt.subrange(k - 1, k - 1 + rep.len()));
    }
}

proof fn lemma_ws_counts(s: Seq<char>)
    ensures
        0 <= leading_ws(s) <= s.len(),
        0 <= trailing_ws(s) <= s.len(),
    decreases s.len(),
{
    if s.len() > 0 {
        lemma_ws_counts(s.drop_first());
        lemma_ws_counts(s.drop_last());
    }
}

/// An occurrence in a trimmed text is one in the text.
proof fn lemma_trimmed_occurrence(line: Seq<char>, pat: Seq<char>)
    requires
        contains_seq(trim_spec(line), pat),
    ensures
        contains_seq(line, pat),
{
    lemma_ws_counts(line);
    let a = leading_ws(line);
    let u = line.skip(a);
    lemma_ws_counts(u);
    let t = trim_spec(line);
    assert(t == u.take(u.len() - trailing_ws(u)));
    let i = choose|i: int| occurs_at(t, pat, i);
    assert(t.subrange(i, i + pat.len()) =~= line.subrange(a + i, a + i + pat.len()));
    assert(occurs_at(line, pat, a + i));
}

/// The box `from`, first found at `k`, becomes `to` there; what comes before is kept.
proof fn lemma_box_flipped(line: Seq<char>, from: Seq<char>, to: Seq<char>) -> (k: int)
    requires
        from.len() == 3,
        to.len() == 3,
        contains_seq(line, from),
    ensures
        occurs_at(line, from, k),
        occurs_at(replace_all(line, from, to), to, k),
        replace_all(line, from, to).take(k) == line.take(k),
{
    crate::text::lemma_first_occurrence(line, from);
    let k = crate::text::first_occurrence(line, from)->0;
    lemma_replace_first(line, from, to, k);
    let r = replace_all(line, from, to);
    assert(r.subrange(k, k + 3) == to);
    k
}

/// `[ ]`
pub open spec fn open_box() -> Seq<char> {
    seq!['[', ' ', ']']
}

/// `[x]`
pub open spec fn ticked_box() -> Seq<char> {
    seq!['[', 'x', ']']
}

/// `[X]`
pub open spec fn upper_box() -> Seq<char> {
    seq!['[', 'X', ']']
}

/// Toggling a task line flips its box. A line with an open box `[ ]` gets `[x]` where
/// its first `[ ]` was; else one with a ticked box `[x]` gets `[ ]` where its first
/// `[x]` was; else one with a ticked box `[X]` gets `[ ]` where its first `[X]` was. In
/// each case the text before that box is kept and the toggled line is not the line.
pub proof fn law_toggling_flips_the_box(line: Seq<char>)
    ensures
        contains_seq(trim_spec(line), open_box()) ==> exists|k: int|
            occurs_at(line, open_box(), k) && #[trigger] occurs_at(toggled(line), ticked_box(), k)
                && toggled(line).take(k) == line.take(k),
        !contains_seq(trim_spec(line), open_box()) && contains_seq(trim_spec(line), ticked_box()) ==> exists|k: int|
            occurs_at(line, ticked_box(), k) && #[trigger] occurs_at(toggled(line), open_box(), k)
                && toggled(line).take(k) == line.take(k),
        !contains_seq(trim_spec(line), open_box()) && !contains_seq(trim_spec(line), ticked_box())
            && contains_seq(trim_spec(line), upper_box()) ==> exists|k: int|
            occurs_at(line, upper_box(), k) && #[trigger] occurs_at(toggled(line), open_box(), k)
                && toggled(line).take(k) == line.take(k),
        contains_seq(trim_spec(line), open_box()) || contains_seq(trim_spec(line), ticked_box())
            || contains_seq(trim_spec(line), upper_box()) ==> toggled(line) != line,
{
    let t = trim_spec(line);
    let open = open_box();
    let lower = ticked_box();
    let upper = upper_box();
    if contains_seq(t, open) {
        lemma_trimmed_occurrence(line, open);
        let k = lemma_box_flipped(line, open, lower);
        let r = toggled(line);
        assert(line.subrange(k, k + 3)[1] == ' ');
        assert(r.subrange(k, k + 3)[1] == 'x');
        assert(line[k + 1] != r[k + 1]);
    } else if contains_seq(t, lower) {
        lemma_trimmed_occurrence(line, lower);
        let k = lemma_box_flipped(line, lower, open);
        let r = toggled(line);
        assert(line.subrange(k, k + 3)[1] == 'x');
        assert(r.subrange(k, k + 3)[1] == ' ');
        assert(line[k + 1] != r[k + 1]);
    } else if contains_seq(t, upper) {
        lemma_trimmed_occurrence(line, upper);
        let k = lemma_box_flipped(line, upper, open);
        let r = toggled(line);
        assert(line.subrange(k, k + 3)[1] == 'X');
        assert(r.subrange(k, k + 3)[1] == ' ');
        assert(line[k + 1] != r[k + 1]);
    }
}

/// Index of the first line that is exactly the task, or the number of lines.
pub open spec fn first_exact(lines: Seq<Seq<char>>, target: Seq<char>) -> int
    decreases lines.len(),
{
    if lines.len() == 0 {
        0
    } else if exact_task(lines[0], target) {
        0
    } else {
        1 + first_exact(lines.drop_first(), target)
    }
}

/// Index of the first line that loosely is the task, or the number of lines.
pub open spec fn first_loose(lines: Seq<Seq<char>>, target: Seq<char>) -> int
    decreases lines.len(),
{
    if lines.len() == 0 {
        0
    } else if loose_task(lines[0], target) {
        0
    } else {
        1 + first_loose(lines.drop_first(), target)
    }
}

/// The body with the task `content` toggled: the first line that is exactly that task,
/// else the first task line whose text contains it; lines joined again with `\n`.
/// `None` when no line matches.
pub open spec fn toggle_task_spec(body: Seq<char>, content: Seq<char>) -> Option<Seq<char>> {
    let lines = lines_spec(body);
    let target = unicode_lowercase(trim_spec(content));
    let e = first_exact(lines, target);
    let l = first_loose(lines, target);
    if e < lines.len() {
        Some(join_with(lines.update(e, toggled(lines[e])), seq!['\n']))
    } else if l < lines.len() {
        Some(join_with(lines.update(l, toggled(lines[l])), seq!['\n']))
    } else {
        None
    }
}

proof fn lemma_first_at(lines: Seq<Seq<char>>, target: Seq<char>, i: int, exact: bool)
    requires
        0 <= i <= lines.len(),
        forall|j: int| 0 <= j < i ==> !(if exact { exact_task(#[trigger] lines[j], target) } else { loose_task(lines[j], target) }),
        i < lines.len() ==> (if exact { exact_task(lines[i], target) } else { loose_task(lines[i], target) }),
    ensures
        exact ==> first_exact(lines, target) == i,
        !exact ==> first_loose(lines, target) == i,
    decreases i,
{
    if i > 0 {
        assert forall|j: int| 0 <= j < i - 1 implies !(if exact { exact_task(#[trigger] lines.drop_first()[j], target) } else { loose_task(lines.drop_first()[j], target) }) by {
            assert(lines.drop_first()[j] == lines[j + 1]);
        }
        lemma_first_at(lines.drop_first(), target, i - 1, exact);
    }
}

/// `true` when the trimmed line starts with a task marker.
fn has_task_marker(t: &[char]) -> (r: bool)
    ensures
        r == task_marker(t@),
{
    let m0 = ['-', ' ', '[', ' ', ']'];
    assert(m0@ =~= seq!['-', ' ', '[', ' ', ']']);
    let m1 = ['-', ' ', '[', 'x', ']'];
    assert(m1@ =~= seq!['-', ' ', '[', 'x', ']']);
    let m2 = ['-', ' ', '[', 'X', ']'];
    assert(m2@ =~= seq!['-', ' ', '[', 'X', ']']);
    let m3 = ['*', ' ', '[', ' ', ']'];
    assert(m3@ =~= seq!['*', ' ', '[', ' ', ']']);
    let m4 = ['*', ' ', '[', 'x', ']'];
    assert(m4@ =~= seq!['*', ' ', '[', 'x', ']']);
    let m5 = ['*', ' ', '[', 'X', ']'];
    assert(m5@ =~= seq!['*', ' ', '[', 'X', ']']);
    let m6 = ['+', ' ', '[', ' ', ']'];
    assert(m6@ =~= seq!['+', ' ', '[', ' ', ']']);
    let m7 = ['+', ' ', '[', 'x', ']'];
    assert(m7@ =~= seq!['+', ' ', '[', 'x', ']']);
    let m8 = ['+', ' ', '[', 'X', ']'];
    assert(m8@ =~= seq!['+', ' ', '[', 'X', ']']);
    starts_with(t, &m0) || starts_with(t, &m1) || starts_with(t, &m2) || starts_with(t, &m3) || starts_with(t, &m4) || starts_with(t, &m5) || starts_with(t, &m6) || starts_with(t, &m7) || starts_with(t, &m8)
}

/// Flips the box of a task line (see [`toggled`]).
fn toggle_line(line: &Vec<char>) -> (r: Vec<char>)
    ensures
        r@ == toggled(line@),
{
    let t = trim(line.as_slice());
    let open = ['[', ' ', ']'];
    let ticked = ['[', 'x', ']'];
    let upper = ['[', 'X', ']'];
    assert(open@ =~= seq!['[', ' ', ']']);
    assert(ticked@ =~= seq!['[', 'x', ']']);
    assert(upper@ =~= seq!['[', 'X', ']']);
    if contains(&t, &open) {
        replace_chars(line.as_slice(), &open, &ticked)
    } else if contains(&t, &ticked) {
        replace_chars(line.as_slice(), &ticked, &open)
    } else if contains(&t, &upper) {
        replace_chars(line.as_slice(), &upper, &open)
    } else {
        crate::text::copy_chars(line)
    }
}

/// `true` when the line is exactly the task.
fn is_exact_task(line: &Vec<char>, target: &Vec<char>) -> (r: bool)
    ensures
        r == exact_task(line@, target@),
{
    let t = trim(line.as_slice());
    if !has_task_marker(&t) || t.len() <= 5 {
        return false;
    }
    let rest = crate::paths::tail_from(&t, 5);
    let rt = trim(&rest);
    let lower = to_lowercase(string_of(&rt).as_str());
    let lc = chars_of(lower.as_str());
    crate::text::chars_eq(&lc, target.as_slice())
}

/// `true` when the line loosely is the task.
fn is_loose_task(line: &Vec<char>, target: &Vec<char>) -> (r: bool)
    ensures
        r == loose_task(line@, target@),
{
    let t = trim(line.as_slice());
    let a = ['-', ' ', '[', ' '];
    let b = ['*', ' ', '[', ' '];
    let c = ['+', ' ', '[', ' '];
    assert(a@ =~= seq!['-', ' ', '[', ' ']);
    assert(b@ =~= seq!['*', ' ', '[', ' ']);
    assert(c@ =~= seq!['+', ' ', '[', ' ']);
    if !(starts_with(&t, &a) || starts_with(&t, &b) || starts_with(&t, &c)) {
        return false;
    }
    let lower = to_lowercase(string_of(&t).as_str());
    let lc = chars_of(lower.as_str());
    contains(&lc, target.as_slice())
}

/// Toggles the task `line_content` in a note body (see [`toggle_task_spec`]); `None`
/// when no line is that task.
pub fn toggle_task(body: &str, line_content: &str) -> (r: Option<String>)
    ensures
        match r {
            Some(b) => toggle_task_spec(body@, line_content@) == Some(b@),
            None => toggle_task_spec(body@, line_content@) is None,
        },
{
    let bc = chars_of(body);
    let lines = split_lines(&bc);
    let ghost lv = char_vecs(lines@);
    let cc = chars_of(line_content);
    let ct = trim(&cc);
    let tl = to_lowercase(string_of(&ct).as_str());
    let target = chars_of(tl.as_str());
    let mut found: usize = lines.len();
    let mut exact = true;
    let mut i: usize = 0;
    while i < lines.len()
        invariant
            i <= lines.len(),
            lv == char_vecs(lines@),
            forall|j: int| 0 <= j < i ==> !exact_task(#[trigger] lv[j], target@),
        ensures
            i <= lines.len(),
            forall|j: int| 0 <= j < i ==> !exact_task(#[trigger] lv[j], target@),
            i < lines.len() ==> exact_task(lv[i as int], target@),
        decreases lines.len() - i,
    {
        assert(lv[i as int] == lines@[i as int]@);
        if is_exact_task(&lines[i], &target) {
            break;
        }
        i += 1;
    }
    proof {
        lemma_first_at(lv, target@, i as int, true);
    }
    if i < lines.len() {
        found = i;
    } else {
        exact = false;
        let mut k: usize = 0;
        while k < lines.len()
            invariant
                k <= lines.len(),
                lv == char_vecs(lines@),
                forall|j: int| 0 <= j < k ==> !loose_task(#[trigger] lv[j], target@),
            ensures
                k <= lines.len(),
                forall|j: int| 0 <= j < k ==> !loose_task(#[trigger] lv[j], target@),
                k < lines.len() ==> loose_task(lv[k as int], target@),
            decreases lines.len() - k,
        {
            assert(lv[k as int] == lines@[k as int]@);
            if is_loose_task(&lines[k], &target) {
                break;
            }
            k += 1;
        }
        proof {
            lemma_first_at(lv, target@, k as int, false);
        }
        found = k;
    }
    if found >= lines.len() {
        return None;
    }
    let mut out_lines: Vec<Vec<char>> = Vec::new();
    let mut j: usize = 0;
    while j < lines.len()
        invariant
            j <= lines.len(),
            found < lines.len(),
            lv == char_vecs(lines@),
            char_vecs(out_lines@) == lv.update(found as int, toggled(lv[found as int])).take(j as int),
        decreases lines.len() - j,
    {
        let l = if j == found { toggle_line(&lines[j]) } else { crate::text::copy_chars(&lines[j]) };
        let ghost before = out_lines@;
        let ghost l_view = l@;
        out_lines.push(l);
        proof {
            assert(char_vecs(out_lines@) =~= char_vecs(before).push(l_view));
            assert(lv.update(found as int, toggled(lv[found as int])).take(j + 1) =~= lv.update(found as int, toggled(lv[found as int])).take(j as int).push(l_view));
        }
        j += 1;
    }
    assert(lv.update(found as int, toggled(lv[found as int])).take(lines.len() as int) =~= lv.update(found as int, toggled(lv[found as int])));
    let joined = join_chars(&out_lines, &['\n']);
    assert(seq!['\n'] =~= (['\n'])@);
    Some(string_of(&joined))
}

/// The section a daily note gets for another entry on the same day.
pub open spec fn daily_section(time: Seq<char>) -> Seq<char> {
    seq!['\n', '\n', '#', '#', ' ', '\u{1f4cc}', ' '] + time + seq!['\n', '\n']
}

/// Adds a timed section to an existing daily note: the body grows by the section, the
/// inline tags are those of the new body, and the note is updated `now`.
pub fn append_daily_section(note: &mut Note, time: &str, now: Timestamp)
    ensures
        final(note)@ == (NoteView {
            body: old(note)@.body + daily_section(time@),
            inline_tags: inline_tags_spec(old(note)@.body + daily_section(time@)),
            updated_at: now,
            ..old(note)@
        }),
{
    let mut b = chars_of(note.body.as_str());
    let head = vec!['\n', '\n', '#', '#', ' ', '\u{1f4cc}', ' '];
    extend_chars(&mut b, &head);
    let tc = chars_of(time);
    extend_chars(&mut b, &tc);
    b.push('\n');
    b.push('\n');
    let body = string_of(&b);
    assert(body@ =~= old(note)@.body + daily_section(time@));
    let tags = Note::parse_inline_tags(body.as_str());
    note.body = body;
    note.inline_tags = tags;
    note.updated_at = now;
    proof {
        assert(note@ =~= (NoteView {
            body: old(note)@.body + daily_section(time@),
            inline_tags: inline_tags_spec(old(note)@.body + daily_section(time@)),
            updated_at: now,
            ..old(note)@
        }));
    }
}

/// A daily template filled in: `{{date}}` and then `{{time}}` replaced.
pub open spec fn fill_template_spec(template: Seq<char>, date: Seq<char>, time: Seq<char>) -> Seq<char> {
    replace_all(replace_all(template, seq!['{', '{', 'd', 'a', 't', 'e', '}', '}'], date), seq!['{', '{', 't', 'i', 'm', 'e', '}', '}'], time)
}

/// Fills in a daily template (see [`fill_template_spec`]).
pub fn fill_daily_template(template: &str, date: &str, time: &str) -> (r: String)
    ensures
        r@ == fill_template_spec(template@, date@, time@),
{
    let t = chars_of(template);
    let d = chars_of(date);
    let tm = chars_of(time);
    let date_pat = ['{', '{', 'd', 'a', 't', 'e', '}', '}'];
    let time_pat = ['{', '{', 't', 'i', 'm', 'e', '}', '}'];
    assert(date_pat@ =~= seq!['{', '{', 'd', 'a', 't', 'e', '}', '}']);
    assert(time_pat@ =~= seq!['{', '{', 't', 'i', 'm', 'e', '}', '}']);
    let a = replace_chars(&t, &date_pat, &d);
    let b = replace_chars(&a, &time_pat, &tm);
    string_of(&b)
}

/// `Daily Notes/<id>.md`.
pub open spec fn daily_note_path(id: Seq<char>) -> Seq<char> {
    seq!['D', 'a', 'i', 'l', 'y', ' ', 'N', 'o', 't', 'e', 's', '/'] + id + seq!['.', 'm', 'd']
}

/// A new daily note: titled by its date, with the filled template as body, in
/// `Daily Notes/`, created and updated `now`.
pub open spec fn daily_note_spec(id: Seq<char>, date: Seq<char>, body: Seq<char>, now: Timestamp) -> NoteView {
    NoteView {
        id: id,
        parent_id: None,
        title: date,
        body: body,
        color: None,
        pinned: false,
        tags: Seq::empty(),
        inline_tags: inline_tags_spec(body),
        status: active_status(),
        created_at: now,
        updated_at: now,
        file_path: daily_note_path(id),
        is_encrypted: false,
        dek_encrypted: None,
        dek_nonce: None,
    }
}

/// Builds a new daily note (see [`daily_note_spec`]).
pub fn new_daily_note(id: &str, date: &str, body: &str, now: Timestamp) -> (r: Note)
    ensures
        r@ == daily_note_spec(id@, date@, body@, now),
{
    let mut p = vec!['D', 'a', 'i', 'l', 'y', ' ', 'N', 'o', 't', 'e', 's', '/'];
    let ic = chars_of(id);
    extend_chars(&mut p, &ic);
    extend_chars(&mut p, &['.', 'm', 'd']);
    let tags: Vec<String> = Vec::new();
    assert(strings_view(tags@) =~= Seq::<Seq<char>>::empty());
    let r = Note {
        id: NoteId(id.to_string()),
        parent_id: None,
        title: date.to_string(),
        body: body.to_string(),
        color: None,
        pinned: false,
        tags,
        inline_tags: Note::parse_inline_tags(body),
        status: string_of(&['a', 'c', 't', 'i', 'v', 'e']),
        created_at: now,
        updated_at: now,
        file_path: string_of(&p),
        is_encrypted: false,
        dek_encrypted: None,
        dek_nonce: None,
    };
    assert(r@ =~= daily_note_spec(id@, date@, body@, now));
    r
}

} // verus!
