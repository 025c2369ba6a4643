//! WebDAV href and URL normalisation: percent decoding, path cleaning and
//! vault-relative path computation.
use vstd::prelude::*;
use vstd::utf8::*;
use crate::text::{occurs_at, has_prefix, first_occurrence, index_of_char, lemma_index_of_char_bounds, lemma_index_of_char_after, lemma_index_of_char_absent, chars_of, string_of, extend_chars, starts_with, find_seq};

verus! {

/// Value of an ASCII hexadecimal digit (as `char::to_digit(16)` on a byte).
pub open spec fn hex_digit(b: u8) -> Option<u8> {
    if 48 <= b && b <= 57 {
        Some((b - 48) as u8)
    } else if 97 <= b && b <= 102 {
        Some((b - 87) as u8)
    } else if 65 <= b && b <= 70 {
        Some((b - 55) as u8)
    } else {
        None
    }
}

/// The byte that the hex pair `h`,`l` denotes, when both are hex digits.
pub open spec fn hex_pair(h: u8, l: u8) -> Option<u8> {
    match (hex_digit(h), hex_digit(l)) {
        (Some(a), Some(b)) => Some((a * 16 + b) as u8),
        _ => None,
    }
}

fn hex_value(b: u8) -> (r: Option<u8>)
    ensures
        r == hex_digit(b),
{
    if 48 <= b && b <= 57 {
        Some(b - 48)
    } else if 97 <= b && b <= 102 {
        Some(b - 87)
    } else if 65 <= b && b <= 70 {
        Some(b - 55)
    } else {
        None
    }
}

/// Decodes two hexadecimal digit bytes into one byte.
pub fn hex_to_byte(h: u8, l: u8) -> (r: Option<u8>)
    ensures
        r == hex_pair(h, l),
{
    match hex_value(h) {
        Some(hv) => match hex_value(l) {
            Some(lv) => Some(hv * 16 + lv),
            None => None,
        },
        None => None,
    }
}

/// Percent-decoding of a byte sequence: `%XY` with two hex digits and at least one more
/// byte after the `%` pair's first digit stays within bounds becomes the byte `0xXY`;
/// everything else is copied unchanged.
pub open spec fn percent_decode_bytes(b: Seq<u8>) -> Seq<u8>
    decreases b.len(),
{
    if b.len() == 0 {
        Seq::empty()
    } else if b[0] == 37u8 && b.len() > 2 && hex_pair(b[1], b[2]) is Some {
        seq![hex_pair(b[1], b[2])->0] + percent_decode_bytes(b.skip(3))
    } else {
        seq![b[0]] + percent_decode_bytes(b.skip(1))
    }
}

/// The characters that std's `String::from_utf8_lossy` yields for `bytes`.
pub uninterp spec fn lossy_utf8(bytes: Seq<u8>) -> Seq<char>;

/// std's `String::from_utf8_lossy`: decodes UTF-8, replacing invalid sequences with
/// U+FFFD. Claimed: the result is `lossy_utf8` of the bytes, and for valid UTF-8 it is
/// exactly the decoded text (std documents that valid input is returned unchanged).
#[verifier::external_body]
fn utf8_lossy(bytes: &[u8]) -> (s: String)
    ensures
        s@ == lossy_utf8(bytes@),
        valid_utf8(bytes@) ==> s@ == decode_utf8(bytes@),
{
    String::from_utf8_lossy(bytes).into_owned()
}

/// The text that `percent_decode` produces for `s`: the decoded bytes read as UTF-8,
/// lossily where they are not valid UTF-8.
pub open spec fn percent_decode_spec(s: Seq<char>) -> Seq<char> {
    let b = percent_decode_bytes(encode_utf8(s));
    if valid_utf8(b) {
        decode_utf8(b)
    } else {
        lossy_utf8(b)
    }
}

/// `s` has no `%` character.
pub open spec fn no_percent(s: Seq<char>) -> bool {
    forall|i: int| 0 <= i < s.len() ==> #[trigger] s[i] != '%'
}

proof fn lemma_scalar_bytes(x: u32)
    by (bit_vector)
    ensures
        leading_byte_width_2(x) >= 0x80u8,
        leading_byte_width_3(x) >= 0x80u8,
        leading_byte_width_4(x) >= 0x80u8,
        last_continuation_byte(x) >= 0x80u8,
        second_last_continuation_byte(x) >= 0x80u8,
        third_last_continuation_byte(x) >= 0x80u8,
        x <= 0x7F ==> leading_byte_width_1(x) == x,
{
}

/// The UTF-8 encoding of a text without `%` has no `%` byte.
proof fn lemma_encode_no_percent(s: Seq<char>)
    requires
        no_percent(s),
    ensures
        forall|k: int| 0 <= k < encode_utf8(s).len() ==> #[trigger] encode_utf8(s)[k] != 37u8,
    decreases s.len(),
{
    if s.len() > 0 {
        let rest = s.drop_first();
        assert forall|i: int| 0 <= i < rest.len() implies #[trigger] rest[i] != '%' by {
            assert(rest[i] == s[i + 1]);
        }
        lemma_encode_no_percent(rest);
        let x = s[0] as u32;
        lemma_scalar_bytes(x);
        char_is_scalar(s[0]);
        char_u32_cast(s[0], x);
        if x == 37u32 {
            assert(('%' as u32) == 37u32);
            char_u32_cast('%', 37u32);
            assert(s[0] == '%');
        }
        let e = encode_scalar(x);
        assert forall|k: int| 0 <= k < e.len() implies #[trigger] e[k] != 37u8 by {}
        let all = encode_utf8(s);
        assert(all == e + encode_utf8(rest));
        assert forall|k: int| 0 <= k < all.len() implies #[trigger] all[k] != 37u8 by {
            if k >= e.len() {
                assert(all[k] == encode_utf8(rest)[k - e.len()]);
            }
        }
    }
}

/// Percent-decoding leaves bytes without `%` unchanged.
proof fn lemma_percent_decode_plain(b: Seq<u8>)
    requires
        forall|k: int| 0 <= k < b.len() ==> #[trigger] b[k] != 37u8,
    ensures
        percent_decode_bytes(b) == b,
    decreases b.len(),
{
    if b.len() > 0 {
        let rest = b.skip(1);
        assert forall|k: int| 0 <= k < rest.len() implies #[trigger] rest[k] != 37u8 by {
            assert(rest[k] == b[k + 1]);
        }
        lemma_percent_decode_plain(rest);
        assert(seq![b[0]] + rest =~= b);
    }
}

/// A text without `%` decodes to itself.
pub proof fn lemma_percent_decode_no_percent(s: Seq<char>)
    requires
        no_percent(s),
    ensures
        percent_decode_spec(s) == s,
{
    lemma_encode_no_percent(s);
    lemma_percent_decode_plain(encode_utf8(s));
    encode_utf8_valid_utf8(s);
    encode_utf8_decode_utf8(s);
}

/// Decodes percent-encoded UTF-8 (e.g. `%20` becomes a space); malformed escapes are kept.
pub fn percent_decode(s: &str) -> (r: String)
    ensures
        r@ == percent_decode_spec(s@),
        valid_utf8(percent_decode_bytes(encode_utf8(s@))) ==> r@ == decode_utf8(percent_decode_bytes(encode_utf8(s@))),
{
    let bytes = s.as_bytes();
    let mut decoded: Vec<u8> = Vec::new();
    let mut i: usize = 0;
    assert(bytes@.skip(0) =~= bytes@);
    assert(decoded@ + percent_decode_bytes(bytes@.skip(0)) =~= percent_decode_bytes(bytes@));
    while i < bytes.len()
        invariant
            i <= bytes.len(),
            decoded@ + percent_decode_bytes(bytes@.skip(i as int)) == percent_decode_bytes(bytes@),
        decreases bytes.len() - i,
    {
        let ghost rest = bytes@.skip(i as int);
        if bytes[i] == 37u8 && bytes.len() > 2 && i < bytes.len() - 2 {
            if let Some(dec) = hex_to_byte(bytes[i + 1], bytes[i + 2]) {
                proof {
                    assert(rest[0] == bytes@[i as int] && rest[1] == bytes@[i + 1] && rest[2] == bytes@[i + 2]);
                    assert(rest.skip(3) =~= bytes@.skip(i + 3));
                }
                decoded.push(dec);
                i += 3;
                proof {
                    assert(decoded@ + percent_decode_bytes(bytes@.skip(i as int)) =~= percent_decode_bytes(bytes@));
                }
                continue;
            }
        }
        proof {
            assert(rest[0] == bytes@[i as int]);
            if rest.len() > 2 {
                assert(rest[1] == bytes@[i + 1] && rest[2] == bytes@[i + 2]);
            }
            assert(rest.skip(1) =~= bytes@.skip(i + 1));
        }
        decoded.push(bytes[i]);
        i += 1;
        proof {
            assert(decoded@ + percent_decode_bytes(bytes@.skip(i as int)) =~= percent_decode_bytes(bytes@));
        }
    }
    proof {
        assert(bytes@.skip(i as int) =~= Seq::<u8>::empty());
        assert(decoded@ =~= percent_decode_bytes(bytes@));
    }
    utf8_lossy(decoded.as_slice())
}

/// `/`-prefixed concatenation of the non-empty `/`-separated segments of `s`.
pub open spec fn clean_segments(s: Seq<char>) -> Seq<char>
    decreases s.len(),
{
    let i = index_of_char(s, '/');
    let seg = s.take(i);
    let head = if seg.len() > 0 { seq!['/'] + seg } else { Seq::empty() };
    if i >= s.len() {
        head
    } else {
        proof {
            lemma_index_of_char_bounds(s, '/');
        }
        head + clean_segments(s.skip(i + 1))
    }
}

/// The characters `h t t p : / /`.
pub open spec fn http_prefix() -> Seq<char> {
    seq!['h', 't', 't', 'p', ':', '/', '/']
}

/// The characters `h t t p s : / /`.
pub open spec fn https_prefix() -> Seq<char> {
    seq!['h', 't', 't', 'p', 's', ':', '/', '/']
}

/// The characters `: / /`.
pub open spec fn scheme_sep() -> Seq<char> {
    seq![':', '/', '/']
}

/// The path component of an absolute `http(s)://host/path` URL; other text is kept whole.
pub open spec fn url_path_part(d: Seq<char>) -> Seq<char> {
    if has_prefix(d, http_prefix()) || has_prefix(d, https_prefix()) {
        match first_occurrence(d, scheme_sep()) {
            Some(k) => {
                let after = d.skip(k + 3);
                let j = index_of_char(after, '/');
                if j < after.len() {
                    after.skip(j)
                } else {
                    seq!['/']
                }
            },
            None => d,
        }
    } else {
        d
    }
}

/// Normal form of a decoded path: its clean segments, or `/` when there are none.
pub open spec fn normalize_decoded(d: Seq<char>) -> Seq<char> {
    let c = clean_segments(url_path_part(d));
    if c.len() == 0 {
        seq!['/']
    } else {
        c
    }
}

/// What `normalize_path` returns for `s`.
pub open spec fn normalize_spec(s: Seq<char>) -> Seq<char> {
    normalize_decoded(percent_decode_spec(s))
}

/// No two `/` follow each other.
pub open spec fn no_double_slash(c: Seq<char>) -> bool {
    forall|k: int| 0 <= k < c.len() - 1 ==> !(#[trigger] c[k] == '/' && c[k + 1] == '/')
}

/// A clean absolute path: it starts with `/`, never has two `/` in a row, and is `/` or
/// does not end with `/`.
pub open spec fn clean_path_shape(c: Seq<char>) -> bool {
    &&& c.len() > 0 && c[0] == '/'
    &&& no_double_slash(c)
    &&& (c == seq!['/'] || c.last() != '/')
}

proof fn lemma_clean_segments_shape(s: Seq<char>)
    ensures
        clean_segments(s).len() == 0 || (clean_path_shape(clean_segments(s)) && clean_segments(s).last() != '/'),
    decreases s.len(),
{
    let i = index_of_char(s, '/');
    lemma_index_of_char_bounds(s, '/');
    let seg = s.take(i);
    let head = if seg.len() > 0 { seq!['/'] + seg } else { Seq::empty() };
    assert(forall|k: int| 0 <= k < seg.len() ==> seg[k] != '/');
    if i >= s.len() {
        if seg.len() > 0 {
            assert(clean_segments(s) == head);
            assert(head.last() == seg.last());
            assert forall|k: int| 0 <= k < head.len() - 1 implies !(#[trigger] head[k] == '/' && head[k + 1] == '/') by {
                assert(head[k + 1] == seg[k]);
            }
        }
    } else {
        let rest = s.skip(i + 1);
        lemma_clean_segments_shape(rest);
        let t = clean_segments(rest);
        let c = clean_segments(s);
        assert(c == head + t);
        if seg.len() > 0 {
            assert forall|k: int| 0 <= k < c.len() - 1 implies !(#[trigger] c[k] == '/' && c[k + 1] == '/') by {
                if k + 1 < head.len() {
                    assert(c[k + 1] == seg[k]);
                } else if k + 1 == head.len() {
                    assert(c[k] == seg[seg.len() - 1]);
                } else {
                    assert(c[k] == t[k - head.len()]);
                    assert(c[k + 1] == t[k + 1 - head.len()]);
                }
            }
            if t.len() == 0 {
                assert(c =~= head);
                assert(c.last() == seg.last());
            } else {
                assert(c.last() == t.last());
            }
            assert(c[0] == '/');
        } else {
            assert(c =~= t);
        }
    }
}

/// A normalised path is clean: it starts with `/`, has no empty segment (`//`), and ends
/// with `/` only when it is the root `/`.
pub proof fn law_normalized_paths_are_clean(s: Seq<char>)
    ensures
        clean_path_shape(normalize_spec(s)),
{
    let d = percent_decode_spec(s);
    lemma_clean_segments_shape(url_path_part(d));
    let c = clean_segments(url_path_part(d));
    if c.len() == 0 {
        assert(normalize_spec(s) == seq!['/']);
        assert(no_double_slash(seq!['/']));
    }
}

proof fn lemma_clean_segments_of_relative(t: Seq<char>)
    requires
        t.len() > 0,
        t[0] != '/',
        t.last() != '/',
        no_double_slash(t),
    ensures
        clean_segments(t) == seq!['/'] + t,
    decreases t.len(),
{
    let i = index_of_char(t, '/');
    lemma_index_of_char_bounds(t, '/');
    let seg = t.take(i);
    if i >= t.len() {
        assert(seg =~= t);
    } else {
        let rest = t.skip(i + 1);
        assert(i < t.len() - 1);
        assert(rest[0] == t[i + 1]);
        assert(!(t[i] == '/' && t[i + 1] == '/'));
        assert(rest.last() == t.last());
        assert forall|k: int| 0 <= k < rest.len() - 1 implies !(#[trigger] rest[k] == '/' && rest[k + 1] == '/') by {
            assert(rest[k] == t[i + 1 + k]);
            assert(rest[k + 1] == t[i + 1 + k + 1]);
        }
        lemma_clean_segments_of_relative(rest);
        assert(t =~= seg + seq!['/'] + rest);
        assert(seq!['/'] + t =~= (seq!['/'] + seg) + (seq!['/'] + rest));
    }
}

/// A clean path without `%` is already in normal form.
pub proof fn law_clean_paths_are_normal(p: Seq<char>)
    requires
        clean_path_shape(p),
        no_percent(p),
    ensures
        normalize_spec(p) == p,
{
    lemma_percent_decode_no_percent(p);
    if has_prefix(p, http_prefix()) {
        assert(p[0] == p.take(7)[0]);
    }
    if has_prefix(p, https_prefix()) {
        assert(p[0] == p.take(8)[0]);
    }
    assert(url_path_part(p) == p);
    let i = index_of_char(p, '/');
    assert(i == 0);
    assert(p.take(0) =~= Seq::<char>::empty());
    let rest = p.skip(1);
    if p.len() == 1 {
        assert(rest =~= Seq::<char>::empty());
        assert(index_of_char(rest, '/') == 0);
        assert(rest.take(0) =~= Seq::<char>::empty());
        assert(clean_segments(rest) =~= Seq::<char>::empty());
        assert(clean_segments(p) =~= Seq::<char>::empty());
        assert(p =~= seq!['/']);
    } else {
        assert(p != seq!['/']);
        assert(rest[0] == p[1]);
        assert(!(p[0] == '/' && p[1] == '/'));
        assert(rest.last() == p.last());
        assert forall|k: int| 0 <= k < rest.len() - 1 implies !(#[trigger] rest[k] == '/' && rest[k + 1] == '/') by {
            assert(rest[k] == p[1 + k]);
            assert(rest[k + 1] == p[1 + k + 1]);
        }
        lemma_clean_segments_of_relative(rest);
        assert(clean_segments(p) =~= Seq::<char>::empty() + clean_segments(rest));
        assert(seq!['/'] + rest =~= p);
    }
}

proof fn lemma_skip_no_percent(s: Seq<char>, k: int)
    requires
        no_percent(s),
        0 <= k <= s.len(),
    ensures
        no_percent(s.skip(k)),
{
    assert forall|i: int| 0 <= i < s.skip(k).len() implies #[trigger] s.skip(k)[i] != '%' by {
        assert(s.skip(k)[i] == s[k + i]);
    }
}

proof fn lemma_clean_segments_no_percent(s: Seq<char>)
    requires
        no_percent(s),
    ensures
        no_percent(clean_segments(s)),
    decreases s.len(),
{
    let i = index_of_char(s, '/');
    lemma_index_of_char_bounds(s, '/');
    let seg = s.take(i);
    let head = if seg.len() > 0 { seq!['/'] + seg } else { Seq::empty() };
    assert(no_percent(head)) by {
        assert forall|j: int| 0 <= j < head.len() implies #[trigger] head[j] != '%' by {
            if j > 0 {
                assert(head[j] == s[j - 1]);
            }
        }
    }
    if i < s.len() {
        lemma_skip_no_percent(s, i + 1);
        lemma_clean_segments_no_percent(s.skip(i + 1));
        let t = clean_segments(s.skip(i + 1));
        assert forall|j: int| 0 <= j < (head + t).len() implies #[trigger] (head + t)[j] != '%' by {
            if j >= head.len() {
                assert((head + t)[j] == t[j - head.len()]);
            }
        }
    }
}

/// A text without `%` normalises to a path without `%`.
pub proof fn law_normalize_keeps_no_percent(p: Seq<char>)
    requires
        no_percent(p),
    ensures
        no_percent(normalize_spec(p)),
{
    lemma_percent_decode_no_percent(p);
    let d = p;
    let u = url_path_part(d);
    assert(no_percent(u)) by {
        if has_prefix(d, http_prefix()) || has_prefix(d, https_prefix()) {
            match first_occurrence(d, scheme_sep()) {
                Some(k) => {
                    crate::text::lemma_first_occurrence(d, scheme_sep());
                    assert(occurs_at(d, scheme_sep(), k));
                    lemma_skip_no_percent(d, k + 3);
                    let after = d.skip(k + 3);
                    let j = index_of_char(after, '/');
                    lemma_index_of_char_bounds(after, '/');
                    if j < after.len() {
                        lemma_skip_no_percent(after, j);
                    }
                },
                None => {},
            }
        }
    }
    lemma_clean_segments_no_percent(u);
}

/// Normalising twice is normalising once, for every text without `%`.
pub proof fn law_normalize_is_idempotent_without_percent(p: Seq<char>)
    requires
        no_percent(p),
    ensures
        normalize_spec(normalize_spec(p)) == normalize_spec(p),
{
    law_normalize_keeps_no_percent(p);
    law_normalize_is_idempotent(p);
}

/// Normalising a normalised path changes nothing (when it has no `%` left to decode).
pub proof fn law_normalize_is_idempotent(s: Seq<char>)
    requires
        no_percent(normalize_spec(s)),
    ensures
        normalize_spec(normalize_spec(s)) == normalize_spec(s),
{
    law_normalized_paths_are_clean(s);
    law_clean_paths_are_normal(normalize_spec(s));
}

fn clean_slashes(s: &[char]) -> (r: Vec<char>)
    ensures
        r@ == clean_segments(s@),
{
    let mut acc: Vec<char> = Vec::new();
    let mut cur: Vec<char> = Vec::new();
    let mut k: usize = 0;
    assert(cur@ + s@.skip(0) =~= s@);
    while k < s.len()
        invariant
            k <= s.len(),
            forall|j: int| 0 <= j < cur@.len() ==> cur@[j] != '/',
            acc@ + clean_segments(cur@ + s@.skip(k as int)) == clean_segments(s@),
        decreases s.len() - k,
    {
        let c = s[k];
        let ghost rest = s@.skip(k + 1);
        let ghost old_cur = cur@;
        let ghost old_acc = acc@;
        proof {
            assert(s@.skip(k as int) =~= seq![c] + rest);
        }
        if c == '/' {
            proof {
                lemma_index_of_char_after(cur@, '/', rest);
                let t = cur@ + seq!['/'] + rest;
                assert(cur@ + s@.skip(k as int) =~= t);
                assert(t.take(cur@.len() as int) =~= cur@);
                assert(t.skip(cur@.len() as int + 1) =~= rest);
                let head = if old_cur.len() > 0 { seq!['/'] + old_cur } else { Seq::<char>::empty() };
                assert(clean_segments(t) == head + clean_segments(rest));
            }
            if cur.len() > 0 {
                acc.push('/');
                extend_chars(&mut acc, cur.as_slice());
            }
            cur = Vec::new();
            proof {
                assert(cur@ + rest =~= rest);
                let head = if old_cur.len() > 0 { seq!['/'] + old_cur } else { Seq::<char>::empty() };
                assert(acc@ =~= old_acc + head);
                assert(acc@ + clean_segments(cur@ + rest) =~= old_acc + (head + clean_segments(rest)));
            }
        } else {
            cur.push(c);
            proof {
                assert(cur@ + rest =~= old_cur + s@.skip(k as int));
            }
        }
        k += 1;
    }
    proof {
        assert(s@.skip(k as int) =~= Seq::<char>::empty());
        assert(cur@ + s@.skip(k as int) =~= cur@);
        lemma_index_of_char_absent(cur@, '/');
        assert(cur@.take(cur@.len() as int) =~= cur@);
    }
    if cur.len() > 0 {
        acc.push('/');
        extend_chars(&mut acc, cur.as_slice());
    }
    proof {
        assert(acc@ =~= clean_segments(s@));
    }
    acc
}

/// Executable `http://` prefix.
fn http_chars() -> (r: Vec<char>)
    ensures
        r@ == http_prefix(),
{
    let r = vec!['h', 't', 't', 'p', ':', '/', '/'];
    assert(r@ =~= http_prefix());
    r
}

/// Executable `https://` prefix.
fn https_chars() -> (r: Vec<char>)
    ensures
        r@ == https_prefix(),
{
    let r = vec!['h', 't', 't', 'p', 's', ':', '/', '/'];
    assert(r@ =~= https_prefix());
    r
}

/// Executable `://` separator.
fn scheme_sep_chars() -> (r: Vec<char>)
    ensures
        r@ == scheme_sep(),
{
    let r = vec![':', '/', '/'];
    assert(r@ =~= scheme_sep());
    r
}

/// Index of the first occurrence of `c` in `s`, or `s.len()`.
pub fn index_of(s: &[char], c: char) -> (r: usize)
    ensures
        r == index_of_char(s@, c),
{
    let mut i: usize = 0;
    while i < s.len() && s[i] != c
        invariant
            i <= s.len(),
            forall|j: int| 0 <= j < i ==> s@[j] != c,
        decreases s.len() - i,
    {
        i += 1;
    }
    proof {
        lemma_index_of_char_bounds(s@, c);
        if i < s.len() {
            lemma_index_of_char_after(s@.take(i as int), c, s@.skip(i + 1));
            assert(s@.take(i as int) + seq![c] + s@.skip(i + 1) =~= s@);
        } else {
            lemma_index_of_char_absent(s@, c);
        }
    }
    i
}

/// Copies `s[from..]`.
pub fn tail_from(s: &[char], from: usize) -> (r: Vec<char>)
    requires
        from <= s.len(),
    ensures
        r@ == s@.skip(from as int),
{
    let mut r: Vec<char> = Vec::new();
    let mut i: usize = from;
    while i < s.len()
        invariant
            from <= i <= s.len(),
            r@ == s@.subrange(from as int, i as int),
        decreases s.len() - i,
    {
        r.push(s[i]);
        i += 1;
    }
    r
}

/// Copies `s[..to]`.
pub fn head_to(s: &[char], to: usize) -> (r: Vec<char>)
    requires
        to <= s.len(),
    ensures
        r@ == s@.take(to as int),
{
    let mut r: Vec<char> = Vec::new();
    let mut i: usize = 0;
    while i < to
        invariant
            i <= to <= s.len(),
            r@ == s@.take(i as int),
        decreases to - i,
    {
        r.push(s[i]);
        i += 1;
    }
    r
}

fn path_part_of(d: &[char]) -> (r: Vec<char>)
    ensures
        r@ == url_path_part(d@),
{
    let http = http_chars();
    let https = https_chars();
    if starts_with(d, http.as_slice()) || starts_with(d, https.as_slice()) {
        let sep = scheme_sep_chars();
        assert(sep@.len() == 3);
        match find_seq(d, sep.as_slice()) {
            Some(k) => {
                assert(occurs_at(d@, sep@, k as int));
                assert(k + 3 <= d@.len());
                assert(d@.len() == d.len());
                let after = tail_from(d, k + 3);
                let j = index_of(after.as_slice(), '/');
                if j < after.len() {
                    tail_from(after.as_slice(), j)
                } else {
                    vec!['/']
                }
            },
            None => copy_chars_slice(d),
        }
    } else {
        copy_chars_slice(d)
    }
}

/// Copies a slice of characters.
pub fn copy_chars_slice(v: &[char]) -> (r: Vec<char>)
    ensures
        r@ == v@,
{
    tail_from(v, 0)
}

/// Normal form of an already percent-decoded path.
pub fn normalize_decoded_path(d: &[char]) -> (r: Vec<char>)
    ensures
        r@ == normalize_decoded(d@),
{
    let part = path_part_of(d);
    let cleaned = clean_slashes(part.as_slice());
    if cleaned.len() == 0 {
        vec!['/']
    } else {
        cleaned
    }
}

/// Normalises any WebDAV href or URL to a clean absolute-style path (e.g. `/dav/vault`):
/// percent-decodes it, keeps only the path of an `http(s)://` URL, collapses repeated
/// slashes, drops a trailing slash and guarantees a single leading slash.
pub fn normalize_path(path: &str) -> (r: String)
    ensures
        r@ == normalize_spec(path@),
{
    let decoded = percent_decode(path);
    let d = chars_of(decoded.as_str());
    let n = normalize_decoded_path(d.as_slice());
    string_of(n.as_slice())
}

/// `true` when two hrefs name the same WebDAV resource.
pub fn is_same_path(requested_abs: &str, returned_href: &str) -> (r: bool)
    ensures
        r == (normalize_spec(requested_abs@) == normalize_spec(returned_href@)),
{
    let a = normalize_path(requested_abs);
    let b = normalize_path(returned_href);
    a == b
}

/// Number of leading `c` characters of `s`.
pub open spec fn leading_count(s: Seq<char>, c: char) -> int
    decreases s.len(),
{
    if s.len() > 0 && s[0] == c {
        1 + leading_count(s.drop_first(), c)
    } else {
        0
    }
}

/// `s` without its leading `c` characters (as `str::trim_start_matches(c)`).
pub open spec fn trim_start_char(s: Seq<char>, c: char) -> Seq<char> {
    s.skip(leading_count(s, c))
}

/// Number of trailing `c` characters of `s`.
pub open spec fn trailing_count(s: Seq<char>, c: char) -> int
    decreases s.len(),
{
    if s.len() > 0 && s.last() == c {
        1 + trailing_count(s.drop_last(), c)
    } else {
        0
    }
}

/// `s` without its trailing `c` characters (as `str::trim_end_matches(c)`).
pub open spec fn trim_end_char(s: Seq<char>, c: char) -> Seq<char> {
    s.take(s.len() - trailing_count(s, c))
}

proof fn lemma_leading_count(s: Seq<char>, c: char, k: int)
    requires
        0 <= k <= s.len(),
        forall|j: int| 0 <= j < k ==> s[j] == c,
        k < s.len() ==> s[k] != c,
    ensures
        leading_count(s, c) == k,
    decreases k,
{
    if k > 0 {
        lemma_leading_count(s.drop_first(), c, k - 1);
    }
}

proof fn lemma_trailing_count(s: Seq<char>, c: char, k: int)
    requires
        0 <= k <= s.len(),
        forall|j: int| s.len() - k <= j < s.len() ==> s[j] == c,
        k < s.len() ==> s[s.len() - k - 1] != c,
    ensures
        trailing_count(s, c) == k,
    decreases k,
{
    if k > 0 {
        lemma_trailing_count(s.drop_last(), c, k - 1);
    }
}

/// Removes leading `c` characters.
pub fn trim_start_matches(s: &[char], c: char) -> (r: Vec<char>)
    ensures
        r@ == trim_start_char(s@, c),
{
    let mut i: usize = 0;
    while i < s.len() && s[i] == c
        invariant
            i <= s.len(),
            forall|j: int| 0 <= j < i ==> s@[j] == c,
        decreases s.len() - i,
    {
        i += 1;
    }
    proof {
        lemma_leading_count(s@, c, i as int);
    }
    tail_from(s, i)
}

/// Removes trailing `c` characters.
pub fn trim_end_matches(s: &[char], c: char) -> (r: Vec<char>)
    ensures
        r@ == trim_end_char(s@, c),
{
    let mut e: usize = s.len();
    while e > 0 && s[e - 1] == c
        invariant
            e <= s.len(),
            forall|j: int| e <= j < s.len() ==> s@[j] == c,
        decreases e,
    {
        e -= 1;
    }
    proof {
        lemma_trailing_count(s@, c, (s.len() - e) as int);
    }
    head_to(s, e)
}

/// Vault-relative path of a remote href below `root` (see `get_relative_path`).
pub open spec fn relative_path_spec(href: Seq<char>, root: Seq<char>) -> Seq<char> {
    let h = normalize_spec(href);
    let r = normalize_spec(root);
    let rel = if has_prefix(h, r) {
        trim_start_char(h.skip(r.len() as int), '/')
    } else {
        trim_start_char(h, '/')
    };
    if rel.len() == 0 {
        seq!['/']
    } else {
        rel
    }
}

proof fn lemma_trim_start_char_first(s: Seq<char>, c: char)
    ensures
        0 <= leading_count(s, c) <= s.len(),
        trim_start_char(s, c).len() == 0 || trim_start_char(s, c)[0] != c,
    decreases s.len(),
{
    if s.len() > 0 && s[0] == c {
        lemma_trim_start_char_first(s.drop_first(), c);
        assert(s.skip(1 + leading_count(s.drop_first(), c)) =~= s.drop_first().skip(leading_count(s.drop_first(), c)));
    }
}

/// A vault-relative path is never empty, and it is `/` (the root itself) or does not
/// start with `/`.
pub proof fn law_relative_paths_are_relative(href: Seq<char>, root: Seq<char>)
    ensures
        relative_path_spec(href, root).len() > 0,
        relative_path_spec(href, root) == seq!['/'] || relative_path_spec(href, root)[0] != '/',
{
    let h = normalize_spec(href);
    let r = normalize_spec(root);
    if has_prefix(h, r) {
        lemma_trim_start_char_first(h.skip(r.len() as int), '/');
    } else {
        lemma_trim_start_char_first(h, '/');
    }
}

/// The root's own href is the vault root `/`; below the root `/` every href is its
/// normalised path without the leading slash; and below a clean root without `%`, an
/// href `root/rel` with a clean `rel` (no leading, trailing or double slash, no `%`) is
/// `rel`.
pub proof fn law_relative_path_cases(href: Seq<char>, root: Seq<char>)
    ensures
        normalize_spec(href) == normalize_spec(root) ==> relative_path_spec(href, root) == seq!['/'],
        normalize_spec(root) == seq!['/'] ==> relative_path_spec(href, root) == (if normalize_spec(href) == seq!['/'] {
            seq!['/']
        } else {
            normalize_spec(href).skip(1)
        }),
{
    let h = normalize_spec(href);
    let r = normalize_spec(root);
    law_normalized_paths_are_clean(href);
    if h == r {
        assert(h.take(r.len() as int) =~= r);
        assert(h.skip(r.len() as int) =~= Seq::<char>::empty());
    }
    if r == seq!['/'] {
        assert(h.take(1) =~= r);
        let t = h.skip(1);
        if h == seq!['/'] {
            assert(t =~= Seq::<char>::empty());
        } else {
            assert(h.len() > 1);
            assert(t[0] == h[1]);
            assert(!(h[0] == '/' && h[1] == '/'));
            assert(leading_count(t, '/') == 0);
            assert(t.skip(0) =~= t);
        }
    }
}

/// The href of `rel` below `root`: `root/rel` (`/rel` below the root `/`).
pub open spec fn child_href(root: Seq<char>, rel: Seq<char>) -> Seq<char> {
    if root == seq!['/'] { seq!['/'] + rel } else { root + seq!['/'] + rel }
}

/// A clean relative path: non-empty, no leading, trailing or double slash, no `%`.
pub open spec fn clean_relative(rel: Seq<char>) -> bool {
    &&& rel.len() > 0 && rel[0] != '/' && rel.last() != '/'
    &&& no_double_slash(rel)
    &&& no_percent(rel)
}

proof fn lemma_child_of_slash(rel: Seq<char>)
    requires
        clean_relative(rel),
    ensures
        clean_path_shape(seq!['/'] + rel),
        no_percent(seq!['/'] + rel),
{
    let href = seq!['/'] + rel;
    assert forall|k: int| 0 <= k < href.len() - 1 implies !(#[trigger] href[k] == '/' && href[k + 1] == '/') by {
        if k >= 1 {
            assert(href[k] == rel[k - 1]);
            assert(href[k + 1] == rel[k]);
        } else {
            assert(href[1] == rel[0]);
        }
    }
    assert forall|i: int| 0 <= i < href.len() implies #[trigger] href[i] != '%' by {
        if i >= 1 {
            assert(href[i] == rel[i - 1]);
        }
    }
    assert(href.last() == rel.last());
}

proof fn lemma_child_of_dir(root: Seq<char>, rel: Seq<char>)
    requires
        clean_path_shape(root),
        no_percent(root),
        root != seq!['/'],
        clean_relative(rel),
    ensures
        clean_path_shape(root + seq!['/'] + rel),
        no_percent(root + seq!['/'] + rel),
{
    let href = root + seq!['/'] + rel;
    let n = root.len() as int;
    assert(root.last() != '/');
    assert forall|k: int| 0 <= k < href.len() - 1 implies !(#[trigger] href[k] == '/' && href[k + 1] == '/') by {
        if k + 1 < n {
            assert(href[k] == root[k] && href[k + 1] == root[k + 1]);
            assert(!(root[k] == '/' && root[k + 1] == '/'));
        } else if k + 1 == n {
            assert(href[k] == root[n - 1]);
        } else if k == n {
            assert(href[k + 1] == rel[0]);
        } else {
            assert(href[k] == rel[k - n - 1]);
            assert(href[k + 1] == rel[k - n]);
            assert(!(rel[k - n - 1] == '/' && rel[k - n] == '/'));
        }
    }
    assert forall|i: int| 0 <= i < href.len() implies #[trigger] href[i] != '%' by {
        if i < n {
            assert(href[i] == root[i]);
        } else if i > n {
            assert(href[i] == rel[i - n - 1]);
        }
    }
    assert(href.last() == rel.last());
    assert(href[0] == root[0]);
}

/// Below a clean root without `%`, the href `root/rel` of a clean relative path `rel` is
/// `rel`.
pub proof fn law_relative_path_of_child(root: Seq<char>, rel: Seq<char>)
    requires
        clean_path_shape(root),
        no_percent(root),
        clean_relative(rel),
    ensures
        relative_path_spec(child_href(root, rel), root) == rel,
{
    let h = child_href(root, rel);
    law_clean_paths_are_normal(root);
    if root == seq!['/'] {
        lemma_child_of_slash(rel);
        law_clean_paths_are_normal(h);
        law_relative_path_cases(h, root);
        assert(h.skip(1) =~= rel);
        assert(h.len() > 1);
    } else {
        lemma_child_of_dir(root, rel);
        law_clean_paths_are_normal(h);
        let n = root.len() as int;
        assert(h.take(n) =~= root);
        let t = h.skip(n);
        assert(t =~= seq!['/'] + rel);
        assert(leading_count(rel, '/') == 0);
        assert(t.drop_first() =~= rel);
        assert(leading_count(t, '/') == 1);
        assert(t.skip(1) =~= rel);
    }
}

/// Transforms a remote entry href into a path relative to the vault root `root_path`;
/// the root itself (or anything that normalises to nothing) becomes `/`.
pub fn get_relative_path(href: &str, root_path: &str) -> (r: String)
    ensures
        r@ == relative_path_spec(href@, root_path@),
{
    let h = normalize_path(href);
    let root = normalize_path(root_path);
    let hc = chars_of(h.as_str());
    let rc = chars_of(root.as_str());
    let rel = if starts_with(hc.as_slice(), rc.as_slice()) {
        let rem = tail_from(hc.as_slice(), rc.len());
        trim_start_matches(rem.as_slice(), '/')
    } else {
        trim_start_matches(hc.as_slice(), '/')
    };
    if rel.len() == 0 {
        string_of(&['/'])
    } else {
        string_of(rel.as_slice())
    }
}

/// `base/path` with the leading slashes of `path` dropped (a WebDAV request URL).
pub open spec fn build_url_spec(base: Seq<char>, path: Seq<char>) -> Seq<char> {
    base + seq!['/'] + trim_start_char(path, '/')
}

/// Joins the client's base URL and a remote path.
pub fn build_url(base_url: &str, path: &str) -> (r: String)
    ensures
        r@ == build_url_spec(base_url@, path@),
{
    let p = chars_of(path);
    let trimmed = trim_start_matches(p.as_slice(), '/');
    let mut out = chars_of(base_url);
    out.push('/');
    extend_chars(&mut out, trimmed.as_slice());
    string_of(out.as_slice())
}

/// The base URL a WebDAV client keeps: the configured URL without trailing slashes.
pub fn client_base_url(url: &str) -> (r: String)
    ensures
        r@ == trim_end_char(url@, '/'),
{
    let u = chars_of(url);
    let t = trim_end_matches(u.as_slice(), '/');
    string_of(t.as_slice())
}


/// The first `to` bytes.
pub fn head_to_bytes(s: &[u8], to: usize) -> (r: Vec<u8>)
    requires
        to <= s.len(),
    ensures
        r@ == s@.take(to as int),
{
    let mut r: Vec<u8> = Vec::new();
    let mut i: usize = 0;
    while i < to
        invariant
            i <= to,
            to <= s.len(),
            r@ == s@.take(i as int),
        decreases to - i,
    {
        r.push(s[i]);
        proof {
            assert(s@.take(i + 1) =~= s@.take(i as int).push(s@[i as int]));
        }
        i += 1;
    }
    r
}

/// The bytes from index `from` on.
pub fn tail_from_bytes(s: &[u8], from: usize) -> (r: Vec<u8>)
    requires
        from <= s.len(),
    ensures
        r@ == s@.skip(from as int),
{
    let mut r: Vec<u8> = Vec::new();
    let mut i: usize = from;
    while i < s.len()
        invariant
            from <= i <= s.len(),
            r@ == s@.subrange(from as int, i as int),
        decreases s.len() - i,
    {
        r.push(s[i]);
        proof {
            assert(s@.subrange(from as int, i + 1) =~= s@.subrange(from as int, i as int).push(s@[i as int]));
        }
        i += 1;
    }
    assert(s@.subrange(from as int, s.len() as int) =~= s@.skip(from as int));
    r
}

} // verus!
