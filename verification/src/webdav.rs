//! Reading WebDAV `PROPFIND` multistatus responses into remote entries.
use vstd::prelude::*;
use crate::text::{chars_of, string_of, extend_chars, trim, trim_spec};
use crate::models::{RemoteEntry, RemoteEntryView, opt_view};
use quick_xml::events::Event::{Start as OpenTag, Empty as EmptyTag, Text as TextNode, End as CloseTag, Eof as DocEnd};
use crate::webdav::XmlEvent::{Start, Empty, Text, End, Eof, Other, Error};

verus! {

/// One XML event as the response reader reports it: element names as raw bytes, text
/// unescaped (empty where unescaping failed).
#[derive(Debug)]
pub enum XmlEvent {
    Start(Vec<u8>),
    Empty(Vec<u8>),
    Text(String),
    End(Vec<u8>),
    Eof,
    Other,
    Error(String),
}

/// Abstract value of an XML event.
pub enum XmlEventView {
    Start(Seq<u8>),
    Empty(Seq<u8>),
    Text(Seq<char>),
    End(Seq<u8>),
    Eof,
    Other,
    Error(Seq<char>),
}

impl View for XmlEvent {
    type V = XmlEventView;

    open spec fn view(&self) -> XmlEventView {
        match self {
            XmlEvent::Start(n) => XmlEventView::Start(n@),
            XmlEvent::Empty(n) => XmlEventView::Empty(n@),
            XmlEvent::Text(t) => XmlEventView::Text(t@),
            XmlEvent::End(n) => XmlEventView::End(n@),
            XmlEvent::Eof => XmlEventView::Eof,
            XmlEvent::Other => XmlEventView::Other,
            XmlEvent::Error(m) => XmlEventView::Error(m@),
        }
    }
}

/// The events quick-xml's reader (`Reader::from_str` with text trimming) yields from a
/// document, in order, through the first end-of-file or error event.
pub uninterp spec fn document_events(xml: Seq<char>) -> Seq<XmlEventView>;

/// Reads a whole document with `quick_xml::Reader::read_event`, converting each
/// event, up to and including the end-of-file or error event. Claimed: the events are
/// the named ones of the text.
#[verifier::external_body]
fn xml_events(xml: &str) -> (r: Vec<XmlEvent>)
    ensures
        event_views(r@) == document_events(xml@),
{
    let mut reader = quick_xml::Reader::from_str(xml);
    reader.config_mut().trim_text(true);
    let mut out = vec![];
    while !matches!(out.last(), Some(Eof | Error(_))) {
        out.push(match reader.read_event() {
            Ok(OpenTag(e)) => Start(e.name().0.to_vec()),
            Ok(EmptyTag(e)) => Empty(e.name().0.to_vec()),
            Ok(TextNode(e)) => Text(e.unescape().unwrap_or_default().into_owned()),
            Ok(CloseTag(e)) => End(e.name().0.to_vec()),
            Ok(DocEnd) => Eof,
            Ok(_) => Other,
            Err(e) => Error(e.to_string()),
        });
    }
    out
}

/// Index of the first `:` in a name, or its length.
pub open spec fn colon_index(n: Seq<u8>) -> int
    decreases n.len(),
{
    if n.len() == 0 {
        0
    } else if n[0] == 58u8 {
        0
    } else {
        1 + colon_index(n.drop_first())
    }
}

proof fn lemma_colon_index(n: Seq<u8>)
    ensures
        0 <= colon_index(n) <= n.len(),
        colon_index(n) < n.len() ==> n[colon_index(n)] == 58u8,
        forall|j: int| 0 <= j < colon_index(n) ==> n[j] != 58u8,
    decreases n.len(),
{
    if n.len() > 0 && n[0] != 58u8 {
        lemma_colon_index(n.drop_first());
        assert forall|j: int| 0 <= j < colon_index(n) implies n[j] != 58u8 by {
            if j > 0 {
                assert(n[j] == n.drop_first()[j - 1]);
            }
        }
    }
}

/// The local part of an element name: what follows its first `:`, or the whole name.
pub open spec fn local_name(n: Seq<u8>) -> Seq<u8> {
    let i = colon_index(n);
    if i < n.len() {
        n.skip(i + 1)
    } else {
        n
    }
}

/// The local part of an element name (see [`local_name`]).
pub fn strip_prefix(name: &[u8]) -> (r: Vec<u8>)
    ensures
        r@ == local_name(name@),
{
    let mut i: usize = 0;
    while i < name.len() && name[i] != 58u8
        invariant
            i <= name.len(),
            forall|j: int| 0 <= j < i ==> name@[j] != 58u8,
        decreases name.len() - i,
    {
        i += 1;
    }
    proof {
        lemma_colon_index(name@);
        if colon_index(name@) < i {
            assert(name@[colon_index(name@)] == 58u8);
        }
        if i < colon_index(name@) {
            assert(name@[i as int] == 58u8);
        }
    }
    let start: usize = if i < name.len() { i + 1 } else { 0 };
    let mut r: Vec<u8> = Vec::new();
    let mut k: usize = start;
    while k < name.len()
        invariant
            start <= k <= name.len(),
            r@ == name@.subrange(start as int, k as int),
        decreases name.len() - k,
    {
        r.push(name[k]);
        k += 1;
    }
    assert(name@.subrange(start as int, name.len() as int) =~= name@.skip(start as int));
    assert(name@.skip(0) =~= name@);
    r
}

/// `response`, `href`, `collection`, `getcontentlength`, `getetag`, `getlastmodified`.
pub open spec fn tag_response() -> Seq<u8> { seq![114u8, 101, 115, 112, 111, 110, 115, 101] }
pub open spec fn tag_href() -> Seq<u8> { seq![104u8, 114, 101, 102] }
pub open spec fn tag_collection() -> Seq<u8> { seq![99u8, 111, 108, 108, 101, 99, 116, 105, 111, 110] }
pub open spec fn tag_getcontentlength() -> Seq<u8> { seq![103u8, 101, 116, 99, 111, 110, 116, 101, 110, 116, 108, 101, 110, 103, 116, 104] }
pub open spec fn tag_getetag() -> Seq<u8> { seq![103u8, 101, 116, 101, 116, 97, 103] }
pub open spec fn tag_getlastmodified() -> Seq<u8> { seq![103u8, 101, 116, 108, 97, 115, 116, 109, 111, 100, 105, 102, 105, 101, 100] }

/// `true` when the byte vector equals `lit`.
fn bytes_eq(a: &Vec<u8>, lit: &[u8]) -> (r: bool)
    ensures
        r == (a@ == lit@),
{
    if a.len() != lit.len() {
        return false;
    }
    let mut i: usize = 0;
    while i < a.len()
        invariant
            a.len() == lit.len(),
            i <= a.len(),
            forall|j: int| 0 <= j < i ==> a@[j] == lit@[j],
        decreases a.len() - i,
    {
        if a[i] != lit[i] {
            return false;
        }
        i += 1;
    }
    assert(a@ =~= lit@);
    true
}

/// Value of a sequence of decimal digits.
pub open spec fn decimal_value(d: Seq<char>) -> int
    decreases d.len(),
{
    if d.len() == 0 {
        0
    } else {
        decimal_value(d.drop_last()) * 10 + (d.last() as int - '0' as int)
    }
}

/// `true` when every character is an ASCII digit.
pub open spec fn all_digits(d: Seq<char>) -> bool {
    forall|i: int| 0 <= i < d.len() ==> '0' <= #[trigger] d[i] && d[i] <= '9'
}

/// What `str::parse::<u64>` gives: an optional `+` and at least one digit, whose value
/// fits in 64 bits.
pub open spec fn parse_u64_spec(s: Seq<char>) -> Option<u64> {
    let d = if s.len() > 0 && s[0] == '+' { s.skip(1) } else { s };
    if d.len() > 0 && all_digits(d) && decimal_value(d) <= u64::MAX {
        Some(decimal_value(d) as u64)
    } else {
        None
    }
}

proof fn lemma_decimal_grows(d: Seq<char>, i: int)
    requires
        0 <= i <= d.len(),
        all_digits(d),
    ensures
        decimal_value(d.take(i)) <= decimal_value(d),
        0 <= decimal_value(d.take(i)),
    decreases d.len() - i,
{
    if i < d.len() {
        lemma_decimal_grows(d, i + 1);
        assert(d.take(i + 1).drop_last() =~= d.take(i));
        assert('0' <= d[i] && d[i] <= '9');
        lemma_decimal_nonneg(d.take(i));
    } else {
        assert(d.take(i) =~= d);
        lemma_decimal_nonneg(d);
    }
}

pub proof fn lemma_decimal_nonneg(d: Seq<char>)
    requires
        all_digits(d),
    ensures
        0 <= decimal_value(d),
    decreases d.len(),
{
    if d.len() > 0 {
        assert(all_digits(d.drop_last())) by {
            assert forall|i: int| 0 <= i < d.drop_last().len() implies '0' <= #[trigger] d.drop_last()[i] && d.drop_last()[i] <= '9' by {
                assert(d.drop_last()[i] == d[i]);
            }
        }
        lemma_decimal_nonneg(d.drop_last());
        assert('0' <= d[d.len() - 1]);
    }
}

/// `str::parse::<u64>` (see [`parse_u64_spec`]).
pub fn parse_u64(s: &[char]) -> (r: Option<u64>)
    ensures
        r == parse_u64_spec(s@),
{
    if s.len() > 0 && s[0] == '+' {
        let d = crate::paths::tail_from(s, 1);
        parse_decimal(&d)
    } else {
        parse_decimal(s)
    }
}

/// The value of a non-empty run of decimal digits that fits in 64 bits.
pub fn parse_decimal(d: &[char]) -> (r: Option<u64>)
    ensures
        r == parse_u64_spec_digits(d@),
{
    if d.len() == 0 {
        return None;
    }
    let mut v: u64 = 0;
    let mut i: usize = 0;
    while i < d.len()
        invariant
            i <= d.len(),
            all_digits(d@.take(i as int)),
            v as int == decimal_value(d@.take(i as int)),
        decreases d.len() - i,
    {
        let c = d[i];
        proof {
            assert(d@.take(i + 1).drop_last() =~= d@.take(i as int));
            assert(d@.take(i + 1).last() == c);
        }
        if !('0' <= c && c <= '9') {
            assert(!all_digits(d@)) by {
                assert(d@[i as int] == c);
            }
            return None;
        }
        let digit: u64 = (c as u32 - '0' as u32) as u64;
        assert(all_digits(d@.take(i + 1))) by {
            assert forall|j: int| 0 <= j < i + 1 implies '0' <= #[trigger] d@.take(i + 1)[j] && d@.take(i + 1)[j] <= '9' by {
                if j < i {
                    assert(d@.take(i + 1)[j] == d@.take(i as int)[j]);
                }
            }
        }
        assert(decimal_value(d@.take(i + 1)) == (v as int) * 10 + digit as int);
        match v.checked_mul(10) {
            Some(m) => match m.checked_add(digit) {
                Some(n) => {
                    v = n;
                },
                None => {
                    proof {
                        lemma_overflow_sticks(d@, i + 1);
                    }
                    return None;
                },
            },
            None => {
                proof {
                    lemma_overflow_sticks(d@, i + 1);
                }
                return None;
            },
        }
        i += 1;
    }
    assert(d@.take(d.len() as int) =~= d@);
    Some(v)
}

/// Once a prefix of the digits exceeds 64 bits, so does the whole (when all are digits).
proof fn lemma_overflow_sticks(d: Seq<char>, i: int)
    requires
        0 <= i <= d.len(),
        all_digits(d.take(i)),
        decimal_value(d.take(i)) > u64::MAX,
    ensures
        parse_u64_spec_digits(d) is None,
{
    if all_digits(d) {
        lemma_decimal_grows(d, i);
    }
}

/// [`parse_u64_spec`] after the sign.
pub open spec fn parse_u64_spec_digits(d: Seq<char>) -> Option<u64> {
    if d.len() > 0 && all_digits(d) && decimal_value(d) <= u64::MAX {
        Some(decimal_value(d) as u64)
    } else {
        None
    }
}

/// What has been read of a multistatus response.
pub struct PropfindView {
    pub entries: Seq<RemoteEntryView>,
    pub href: Seq<char>,
    pub is_col: bool,
    pub size: Option<u64>,
    pub etag: Option<Seq<char>>,
    pub last_mod: Option<Seq<char>>,
    pub in_href: bool,
    pub in_length: bool,
    pub in_etag: bool,
    pub in_modified: bool,
}

/// Nothing read yet.
pub open spec fn propfind_start() -> PropfindView {
    PropfindView {
        entries: Seq::empty(),
        href: Seq::empty(),
        is_col: false,
        size: None,
        etag: None,
        last_mod: None,
        in_href: false,
        in_length: false,
        in_etag: false,
        in_modified: false,
    }
}

/// One event: a `response` start resets the entry being read; `href`,
/// `getcontentlength`, `getetag` and `getlastmodified` elements direct the (trimmed)
/// text that follows; a `collection` element marks a collection; a `response` end adds
/// the entry read (clearing its size, ETag and time).
pub open spec fn propfind_step(s: PropfindView, e: XmlEventView) -> PropfindView {
    match e {
        XmlEventView::Start(n) => {
            let l = local_name(n);
            if l == tag_response() {
                PropfindView { href: Seq::empty(), is_col: false, size: None, etag: None, last_mod: None, ..s }
            } else if l == tag_href() {
                PropfindView { in_href: true, ..s }
            } else if l == tag_collection() {
                PropfindView { is_col: true, ..s }
            } else if l == tag_getcontentlength() {
                PropfindView { in_length: true, ..s }
            } else if l == tag_getetag() {
                PropfindView { in_etag: true, ..s }
            } else if l == tag_getlastmodified() {
                PropfindView { in_modified: true, ..s }
            } else {
                s
            }
        },
        XmlEventView::Empty(n) => {
            if local_name(n) == tag_collection() {
                PropfindView { is_col: true, ..s }
            } else {
                s
            }
        },
        XmlEventView::Text(t) => {
            let txt = trim_spec(t);
            if s.in_href {
                PropfindView { href: txt, ..s }
            } else if s.in_length {
                PropfindView { size: parse_u64_spec(txt), ..s }
            } else if s.in_etag {
                PropfindView { etag: Some(txt), ..s }
            } else if s.in_modified {
                PropfindView { last_mod: Some(txt), ..s }
            } else {
                s
            }
        },
        XmlEventView::End(n) => {
            let l = local_name(n);
            if l == tag_response() {
                PropfindView {
                    entries: s.entries.push(RemoteEntryView {
                        href: s.href,
                        is_collection: s.is_col,
                        last_modified: s.last_mod,
                        size: s.size,
                        etag: s.etag,
                    }),
                    last_mod: None,
                    size: None,
                    etag: None,
                    ..s
                }
            } else if l == tag_href() {
                PropfindView { in_href: false, ..s }
            } else if l == tag_getcontentlength() {
                PropfindView { in_length: false, ..s }
            } else if l == tag_getetag() {
                PropfindView { in_etag: false, ..s }
            } else if l == tag_getlastmodified() {
                PropfindView { in_modified: false, ..s }
            } else {
                s
            }
        },
        _ => s,
    }
}

/// `"XML parse error: "`.
pub open spec fn xml_error_prefix() -> Seq<char> {
    seq!['X', 'M', 'L', ' ', 'p', 'a', 'r', 's', 'e', ' ', 'e', 'r', 'r', 'o', 'r', ':', ' ']
}

/// Reading events from state `s`: up to the end of the document (or of the events) the
/// entries read; a reader error fails with `XML parse error: ` and its text.
pub open spec fn propfind_run(s: PropfindView, evs: Seq<XmlEventView>) -> Result<Seq<RemoteEntryView>, Seq<char>>
    decreases evs.len(),
{
    if evs.len() == 0 {
        Ok(s.entries)
    } else {
        match evs[0] {
            XmlEventView::Eof => Ok(s.entries),
            XmlEventView::Error(m) => Err(xml_error_prefix() + m),
            _ => propfind_run(propfind_step(s, evs[0]), evs.drop_first()),
        }
    }
}

/// The entries a multistatus response lists, given its events in order.
pub open spec fn propfind_entries_spec(evs: Seq<XmlEventView>) -> Result<Seq<RemoteEntryView>, Seq<char>> {
    propfind_run(propfind_start(), evs)
}

/// The state of reading a multistatus response.
struct PropfindState {
    entries: Vec<RemoteEntry>,
    href: String,
    is_col: bool,
    size: Option<u64>,
    etag: Option<String>,
    last_mod: Option<String>,
    in_href: bool,
    in_length: bool,
    in_etag: bool,
    in_modified: bool,
}

spec fn state_view(s: &PropfindState) -> PropfindView {
    PropfindView {
        entries: crate::engine::entry_views(s.entries@),
        href: s.href@,
        is_col: s.is_col,
        size: s.size,
        etag: opt_view(s.etag),
        last_mod: opt_view(s.last_mod),
        in_href: s.in_href,
        in_length: s.in_length,
        in_etag: s.in_etag,
        in_modified: s.in_modified,
    }
}

fn step(s: &mut PropfindState, e: &XmlEvent)
    ensures
        state_view(final(s)) == propfind_step(state_view(old(s)), e@),
{
    let response: [u8; 8] = [114u8, 101, 115, 112, 111, 110, 115, 101];
    let href: [u8; 4] = [104u8, 114, 101, 102];
    let collection: [u8; 10] = [99u8, 111, 108, 108, 101, 99, 116, 105, 111, 110];
    let length: [u8; 16] = [103u8, 101, 116, 99, 111, 110, 116, 101, 110, 116, 108, 101, 110, 103, 116, 104];
    let etag: [u8; 7] = [103u8, 101, 116, 101, 116, 97, 103];
    let modified: [u8; 15] = [103u8, 101, 116, 108, 97, 115, 116, 109, 111, 100, 105, 102, 105, 101, 100];
    assert(response@ =~= tag_response());
    assert(href@ =~= tag_href());
    assert(collection@ =~= tag_collection());
    assert(length@ =~= tag_getcontentlength());
    assert(etag@ =~= tag_getetag());
    assert(modified@ =~= tag_getlastmodified());
    match e {
        XmlEvent::Start(n) => {
            let l = strip_prefix(n.as_slice());
            if bytes_eq(&l, &response) {
                s.href = String::new();
                s.is_col = false;
                s.size = None;
                s.etag = None;
                s.last_mod = None;
            } else if bytes_eq(&l, &href) {
                s.in_href = true;
            } else if bytes_eq(&l, &collection) {
                s.is_col = true;
            } else if bytes_eq(&l, &length) {
                s.in_length = true;
            } else if bytes_eq(&l, &etag) {
                s.in_etag = true;
            } else if bytes_eq(&l, &modified) {
                s.in_modified = true;
            }
        },
        XmlEvent::Empty(n) => {
            let l = strip_prefix(n.as_slice());
            if bytes_eq(&l, &collection) {
                s.is_col = true;
            }
        },
        XmlEvent::Text(t) => {
            let tc = chars_of(t.as_str());
            let txt = trim(&tc);
            if s.in_href {
                s.href = string_of(&txt);
            } else if s.in_length {
                s.size = parse_u64(&txt);
            } else if s.in_etag {
                s.etag = Some(string_of(&txt));
            } else if s.in_modified {
                s.last_mod = Some(string_of(&txt));
            }
        },
        XmlEvent::End(n) => {
            let l = strip_prefix(n.as_slice());
            if bytes_eq(&l, &response) {
                let entry = RemoteEntry {
                    href: s.href.clone(),
                    is_collection: s.is_col,
                    last_modified: s.last_mod.take(),
                    size: s.size.take(),
                    etag: s.etag.take(),
                };
                let ghost before = s.entries@;
                s.entries.push(entry);
                proof {
                    assert(crate::engine::entry_views(s.entries@) =~= crate::engine::entry_views(before).push(entry@));
                }
            } else if bytes_eq(&l, &href) {
                s.in_href = false;
            } else if bytes_eq(&l, &length) {
                s.in_length = false;
            } else if bytes_eq(&l, &etag) {
                s.in_etag = false;
            } else if bytes_eq(&l, &modified) {
                s.in_modified = false;
            }
        },
        _ => {},
    }
}

fn new_state() -> (r: PropfindState)
    ensures
        state_view(&r) == propfind_start(),
{
    let r = PropfindState {
        entries: Vec::new(),
        href: String::new(),
        is_col: false,
        size: None,
        etag: None,
        last_mod: None,
        in_href: false,
        in_length: false,
        in_etag: false,
        in_modified: false,
    };
    assert(crate::engine::entry_views(r.entries@) =~= Seq::<RemoteEntryView>::empty());
    r
}

/// The views of a list of events.
pub open spec fn event_views(v: Seq<XmlEvent>) -> Seq<XmlEventView> {
    v.map_values(|e: XmlEvent| e@)
}

/// The entries a multistatus response lists, given the reader's events in order (see
/// [`propfind_run`]).
pub fn propfind_entries(events: &Vec<XmlEvent>) -> (r: Result<Vec<RemoteEntry>, String>)
    ensures
        match r {
            Ok(v) => propfind_entries_spec(event_views(events@)) == Ok::<Seq<RemoteEntryView>, Seq<char>>(crate::engine::entry_views(v@)),
            Err(m) => propfind_entries_spec(event_views(events@)) == Err::<Seq<RemoteEntryView>, Seq<char>>(m@),
        },
{
    let ghost ev = event_views(events@);
    let mut s = new_state();
    let mut i: usize = 0;
    assert(ev.skip(0) =~= ev);
    while i < events.len()
        invariant
            i <= events.len(),
            ev == event_views(events@),
            propfind_entries_spec(ev) == propfind_run(state_view(&s), ev.skip(i as int)),
        decreases events.len() - i,
    {
        let e = &events[i];
        proof {
            assert(ev.skip(i as int)[0] == e@);
            assert(ev.skip(i as int).drop_first() =~= ev.skip(i + 1));
        }
        match e {
            XmlEvent::Eof => {
                return Ok(s.entries);
            },
            XmlEvent::Error(m) => {
                let mut out = vec!['X', 'M', 'L', ' ', 'p', 'a', 'r', 's', 'e', ' ', 'e', 'r', 'r', 'o', 'r', ':', ' '];
                let mc = chars_of(m.as_str());
                extend_chars(&mut out, &mc);
                return Err(string_of(&out));
            },
            _ => {
                step(&mut s, e);
            },
        }
        i += 1;
    }
    assert(ev.skip(events.len() as int).len() == 0);
    Ok(s.entries)
}

/// Parses a `PROPFIND` multistatus response into its entries: the document's events
/// as quick-xml reads them, run as [`propfind_entries`] does; a reader error fails with
/// a synchronisation error `XML parse error: ...`.
pub fn parse_propfind(xml: &str) -> (r: Result<Vec<RemoteEntry>, crate::errors::NodaError>)
    ensures
        match r {
            Ok(v) => propfind_entries_spec(document_events(xml@)) == Ok::<Seq<RemoteEntryView>, Seq<char>>(crate::engine::entry_views(v@)),
            Err(e) => e is Sync && propfind_entries_spec(document_events(xml@)) == Err::<Seq<RemoteEntryView>, Seq<char>>(crate::errors::detail_of(e)),
        },
{
    let events = xml_events(xml);
    match propfind_entries(&events) {
        Ok(v) => Ok(v),
        Err(m) => Err(crate::errors::NodaError::Sync(m)),
    }
}

} // verus!
