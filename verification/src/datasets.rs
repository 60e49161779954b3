//! Documents from other dumps: WARC web archives (record headers, the HTTP
//! body of a response, and the text of its HTML) and OpenStreetMap elements
//! (names, addresses and kinds of places).
use vstd::prelude::*;
use crate::chars::{
    extend_chars, str_chars, str_eq, str_to_lowercase, string_from_chars, trim, trim_chars,
    unicode_str_lowercase,
};
use crate::numfmt::{hex_bytes, parse_usize, parsed_usize, push_decimal_i64, push_hex, signed_decimal};
use crate::processing::{join_range, join_words, Document};
use crate::storage::md5_digest;
use crate::text::{char_words, split_whitespace, words};
use crate::text_store::{text_from_bytes, utf8_lossy};
use crate::wiki::starts_with;

verus! {

// ---------------------------------------------------------------------------
// WARC records

/// A record of a WARC file: its type (lowercased), target URI, declared
/// length and body.
#[derive(Debug)]
pub struct WarcRecord {
    pub warc_type: String,
    pub target_uri: String,
    pub content_length: usize,
    pub body: Vec<u8>,
}

/// Whether a line starts a WARC record (`WARC/` and a version).
pub fn is_record_start(line: &str) -> (r: bool)
    ensures
        r == starts_with(line@, "WARC/"@),
{
    let v = str_chars(line);
    let r = crate::wiki::range_starts_with(&v, 0, v.len(), "WARC/");
    assert(v@.subrange(0, v@.len() as int) =~= v@);
    r
}

/// Whether a header line ends the headers: nothing but whitespace.
pub fn is_header_end(line: &str) -> (r: bool)
    ensures
        r == (trim(line@).len() == 0),
{
    let v = str_chars(line);
    trim_chars(&v).len() == 0
}

/// The position of the first `c` in `s`, if any.
pub open spec fn first_index(s: Seq<char>, c: char) -> Option<int>
    decreases s.len(),
{
    if s.len() == 0 {
        None
    } else {
        match first_index(s.drop_last(), c) {
            Some(i) => Some(i),
            None => if s.last() == c { Some(s.len() - 1) } else { None },
        }
    }
}

fn find_char(v: &Vec<char>, c: char) -> (r: Option<usize>)
    ensures
        match r {
            Some(i) => first_index(v@, c) == Some(i as int) && i < v.len(),
            None => first_index(v@, c) is None,
        },
{
    let mut i: usize = 0;
    assert(v@.take(0) =~= Seq::<char>::empty());
    while i < v.len()
        invariant
            i <= v.len(),
            first_index(v@.take(i as int), c) is None,
        decreases v.len() - i,
    {
        assert(v@.take(i + 1).drop_last() =~= v@.take(i as int));
        if v[i] == c {
            proof {
                lemma_first_index_prefix(v@, c, i as int + 1);
            }
            return Some(i);
        }
        i += 1;
    }
    assert(v@.take(v@.len() as int) =~= v@);
    None
}

proof fn lemma_first_index_prefix(s: Seq<char>, c: char, k: int)
    requires
        0 <= k <= s.len(),
        first_index(s.take(k), c) is Some,
    ensures
        first_index(s, c) == first_index(s.take(k), c),
    decreases s.len() - k,
{
    if k < s.len() {
        assert(s.take(k + 1).drop_last() =~= s.take(k));
        lemma_first_index_prefix(s, c, k + 1);
    } else {
        assert(s.take(k) =~= s);
    }
}

/// A header line's field name and value: split at the first `:`, both
/// trimmed; none without a `:`.
pub open spec fn header_field(line: Seq<char>) -> Option<(Seq<char>, Seq<char>)> {
    match first_index(line, ':') {
        Some(i) => Some((trim(line.take(i)), trim(line.subrange(i + 1, line.len() as int)))),
        None => None,
    }
}

/// The record after header line `line`: `WARC-Type` (any case) sets the
/// lowercased type, `WARC-Target-URI` the target, `Content-Length` the length
/// (0 when it is not a number); other lines change nothing.
pub open spec fn after_header(rec: WarcRecord, line: Seq<char>) -> (Seq<char>, Seq<char>, usize) {
    let cur = (rec.warc_type@, rec.target_uri@, rec.content_length);
    match header_field(line) {
        None => cur,
        Some(f) => {
            let key = unicode_str_lowercase(f.0);
            if key == "warc-type"@ {
                (unicode_str_lowercase(f.1), cur.1, cur.2)
            } else if key == "warc-target-uri"@ {
                (cur.0, f.1, cur.2)
            } else if key == "content-length"@ {
                (cur.0, cur.1, match parsed_usize(f.1) { Some(n) => n, None => 0 })
            } else {
                cur
            }
        },
    }
}

/// A record with no header read yet.
pub fn empty_record() -> (r: WarcRecord)
    ensures
        r.warc_type@.len() == 0,
        r.target_uri@.len() == 0,
        r.content_length == 0,
        r.body@.len() == 0,
{
    WarcRecord { warc_type: String::new(), target_uri: String::new(), content_length: 0, body: Vec::new() }
}

/// Takes one header line into the record.
pub fn apply_header(rec: &mut WarcRecord, line: &str)
    ensures
        (final(rec).warc_type@, final(rec).target_uri@, final(rec).content_length) == after_header(*old(rec), line@),
        final(rec).body == old(rec).body,
{
    let v = str_chars(line);
    let colon = match find_char(&v, ':') {
        Some(i) => i,
        None => {
            return;
        },
    };
    let mut kv: Vec<char> = Vec::new();
    let mut j: usize = 0;
    while j < colon
        invariant
            colon < v.len(),
            j <= colon,
            kv@ == v@.take(j as int),
        decreases colon - j,
    {
        kv.push(v[j]);
        assert(v@.take(j + 1) =~= v@.take(j as int).push(v@[j as int]));
        j += 1;
    }
    let key_t = trim_chars(&kv);
    let vv = crate::chars::string_from_range(&v, colon + 1, v.len());
    let val_chars = trim_chars(&str_chars(vv.as_str()));
    let key_s = string_from_chars(&key_t);
    let key = str_to_lowercase(key_s.as_str());
    let val = string_from_chars(&val_chars);
    proof {
        reveal_strlit("warc-type");
        reveal_strlit("warc-target-uri");
        reveal_strlit("content-length");
    }
    if str_eq(key.as_str(), "warc-type") {
        rec.warc_type = str_to_lowercase(val.as_str());
    } else if str_eq(key.as_str(), "warc-target-uri") {
        rec.target_uri = val;
    } else if str_eq(key.as_str(), "content-length") {
        rec.content_length = match parse_usize(val.as_str()) {
            Some(n) => n,
            None => 0,
        };
    }
}

/// The first position of `pat` in `s` at or after `from`, if any.
pub open spec fn find_from(s: Seq<char>, pat: Seq<char>, from: int) -> Option<int>
    decreases s.len() + 1 - from,
{
    if from < 0 || from + pat.len() > s.len() {
        None
    } else if s.subrange(from, from + pat.len()) == pat {
        Some(from)
    } else {
        find_from(s, pat, from + 1)
    }
}

fn find_pattern(v: &Vec<char>, pat: &str) -> (r: Option<usize>)
    ensures
        match r {
            Some(i) => find_from(v@, pat@, 0) == Some(i as int) && i + pat@.len() <= v.len(),
            None => find_from(v@, pat@, 0) is None,
        },
{
    let p = str_chars(pat);
    let mut i: usize = 0;
    while i <= v.len() && p.len() <= v.len() - i
        invariant
            p@ == pat@,
            i <= v.len() + 1,
            find_from(v@, pat@, i as int) == find_from(v@, pat@, 0),
        decreases v.len() - i,
    {
        let mut k: usize = 0;
        let mut same = true;
        while k < p.len()
            invariant
                i + p.len() <= v.len(),
                k <= p.len(),
                same == forall|j: int| 0 <= j < k ==> v@[i + j] == p@[j],
            decreases p.len() - k,
        {
            if v[i + k] != p[k] {
                same = false;
            }
            k += 1;
        }
        if same {
            assert(v@.subrange(i as int, i + p@.len()) =~= p@);
            return Some(i);
        }
        proof {
            let j = choose|j: int| 0 <= j < p@.len() && v@[i + j] != p@[j];
            assert(v@.subrange(i as int, i + p@.len())[j] != p@[j]);
        }
        i += 1;
    }
    None
}

/// The URL and HTML of a WARC response body: the text after the first blank
/// line (`\r\n\r\n`, else `\n\n`), or all of it when there is none; the URL
/// is the target URI, or `unknown` when there is none.
pub open spec fn http_body_parts(text: Seq<char>, target: Seq<char>) -> (Seq<char>, Seq<char>) {
    let url = if target.len() == 0 { "unknown"@ } else { target };
    let html = match find_from(text, "\r\n\r\n"@, 0) {
        Some(i) => text.subrange(i + 4, text.len() as int),
        None => match find_from(text, "\n\n"@, 0) {
            Some(i) => text.subrange(i + 2, text.len() as int),
            None => text,
        },
    };
    (url, html)
}

/// Splits a WARC response into its URL and the HTML after the HTTP headers;
/// the body is read as UTF-8, replacing invalid sequences.
pub fn split_http_body(body: &[u8], target_uri: &str) -> (r: Option<(String, String)>)
    ensures
        r is Some,
        (r.unwrap().0@, r.unwrap().1@) == http_body_parts(utf8_lossy(body@), target_uri@),
{
    let text = text_from_bytes(body);
    let v = str_chars(text.as_str());
    proof {
        reveal_strlit("\r\n\r\n");
        reveal_strlit("\n\n");
    }
    let html = match find_pattern(&v, "\r\n\r\n") {
        Some(i) => crate::chars::string_from_range(&v, i + 4, v.len()),
        None => match find_pattern(&v, "\n\n") {
            Some(i) => crate::chars::string_from_range(&v, i + 2, v.len()),
            None => text,
        },
    };
    let t = str_chars(target_uri);
    let url = if t.len() == 0 { String::from_str("unknown") } else { String::from_str(target_uri) };
    Some((url, html))
}

// ---------------------------------------------------------------------------
// HTML text

/// The texts of the first `<title>` element of an HTML document, as
/// `scraper` finds them, if it has one.
pub uninterp spec fn html_title_texts(html: Seq<char>) -> Option<Seq<Seq<char>>>;

/// The texts of the first `<body>` element of an HTML document, as
/// `scraper` finds them, if it has one.
pub uninterp spec fn html_body_texts(html: Seq<char>) -> Option<Seq<Seq<char>>>;

/// The texts of the root element of an HTML document, as `scraper` finds
/// them.
pub uninterp spec fn html_root_texts(html: Seq<char>) -> Seq<Seq<char>>;

/// `scraper::Html::parse_document`, then the text nodes of the first element
/// that the selector `title` matches. The contract names the result.
#[verifier::external_body]
fn title_texts(html: &str) -> (r: Option<Vec<String>>)
    ensures
        match r {
            Some(v) => html_title_texts(html@) == Some(crate::text::string_views(v@)),
            None => html_title_texts(html@) is None,
        },
{
    let doc = scraper::Html::parse_document(html);
    let sel = scraper::Selector::parse("title").unwrap();
    doc.select(&sel).next().map(|t| t.text().map(|s| s.to_string()).collect())
}

/// `scraper::Html::parse_document`, then the text nodes of the first element
/// that the selector `body` matches. The contract names the result.
#[verifier::external_body]
fn body_texts(html: &str) -> (r: Option<Vec<String>>)
    ensures
        match r {
            Some(v) => html_body_texts(html@) == Some(crate::text::string_views(v@)),
            None => html_body_texts(html@) is None,
        },
{
    let doc = scraper::Html::parse_document(html);
    let sel = scraper::Selector::parse("body").unwrap();
    doc.select(&sel).next().map(|b| b.text().map(|s| s.to_string()).collect())
}

/// `scraper::Html::parse_document`, then the text nodes of the root
/// element. The contract names the result.
#[verifier::external_body]
fn root_texts(html: &str) -> (r: Vec<String>)
    ensures
        crate::text::string_views(r@) == html_root_texts(html@),
{
    let doc = scraper::Html::parse_document(html);
    doc.root_element().text().map(|s| s.to_string()).collect()
}

/// Texts each followed by a space.
pub open spec fn spaced(ts: Seq<Seq<char>>) -> Seq<char>
    decreases ts.len(),
{
    if ts.len() == 0 {
        Seq::empty()
    } else {
        spaced(ts.drop_last()) + ts.last().push(' ')
    }
}

fn join_texts(v: &Vec<String>) -> (r: Vec<char>)
    ensures
        r@ == join_words(crate::text::string_views(v@)),
{
    let mut out: Vec<char> = Vec::new();
    let ghost ts = crate::text::string_views(v@);
    let mut i: usize = 0;
    while i < v.len()
        invariant
            ts == crate::text::string_views(v@),
            i <= v.len(),
            out@ == join_words(ts.take(i as int)),
        decreases v.len() - i,
    {
        assert(ts.take(i + 1).drop_last() =~= ts.take(i as int));
        if i > 0 {
            out.push(' ');
        } else {
            assert(ts.take(0) =~= Seq::<Seq<char>>::empty());
        }
        let w = str_chars(v[i].as_str());
        extend_chars(&mut out, &w);
        proof {
            if i == 0 {
                assert(out@ =~= ts.take(1)[0]);
            }
        }
        i += 1;
    }
    assert(ts.take(v@.len() as int) =~= ts);
    out
}

fn spaced_texts(v: &Vec<String>) -> (r: Vec<char>)
    ensures
        r@ == spaced(crate::text::string_views(v@)),
{
    let mut out: Vec<char> = Vec::new();
    let ghost ts = crate::text::string_views(v@);
    let mut i: usize = 0;
    assert(ts.take(0) =~= Seq::<Seq<char>>::empty());
    while i < v.len()
        invariant
            ts == crate::text::string_views(v@),
            i <= v.len(),
            out@ == spaced(ts.take(i as int)),
        decreases v.len() - i,
    {
        assert(ts.take(i + 1).drop_last() =~= ts.take(i as int));
        let w = str_chars(v[i].as_str());
        extend_chars(&mut out, &w);
        out.push(' ');
        i += 1;
    }
    assert(ts.take(v@.len() as int) =~= ts);
    out
}

/// The title of an HTML document: the texts of its first `<title>` joined by
/// spaces, or nothing.
pub fn page_title(html: &str) -> (r: String)
    ensures
        r@ == match html_title_texts(html@) {
            Some(ts) => join_words(ts),
            None => Seq::<char>::empty(),
        },
{
    match title_texts(html) {
        Some(ts) => string_from_chars(&join_texts(&ts)),
        None => String::new(),
    }
}

/// The texts of the body of an HTML document, each followed by a space, or
/// nothing without a body.
pub fn page_body_spaced(html: &str) -> (r: String)
    ensures
        r@ == match html_body_texts(html@) {
            Some(ts) => spaced(ts),
            None => Seq::<char>::empty(),
        },
{
    match body_texts(html) {
        Some(ts) => string_from_chars(&spaced_texts(&ts)),
        None => String::new(),
    }
}

/// The document of a web page: `web:` and the hexadecimal MD5 of its URL as
/// identifier; its title, a newline and the text of its body (of the whole
/// document when it has no body) with spaces collapsed as text. None when
/// no text is left.
pub open spec fn web_document(url: Seq<char>, html: Seq<char>) -> Option<(Seq<char>, Seq<char>)> {
    let title = match html_title_texts(html) {
        Some(ts) => join_words(ts),
        None => Seq::empty(),
    };
    let texts = match html_body_texts(html) {
        Some(ts) => ts,
        None => html_root_texts(html),
    };
    let cleaned = join_words(words(spaced(texts)));
    if cleaned.len() == 0 {
        None
    } else {
        Some(("web:"@ + hex_bytes(md5_digest(vstd::utf8::encode_utf8(url))), title.push('\n') + cleaned))
    }
}

/// The document of a web page in a WARC file.
pub fn html_to_doc(url: &str, html: &str) -> (r: Option<Document>)
    ensures
        match r {
            Some(d) => web_document(url@, html@) == Some((d.id@, d.text@)),
            None => web_document(url@, html@) is None,
        },
{
    let title = match title_texts(html) {
        Some(ts) => join_texts(&ts),
        None => Vec::new(),
    };
    let texts = match body_texts(html) {
        Some(ts) => ts,
        None => root_texts(html),
    };
    let text = spaced_texts(&texts);
    let ws = split_whitespace(&text);
    let cleaned = join_range(&ws, 0, ws.len());
    assert(char_words(ws@).subrange(0, ws@.len() as int) =~= char_words(ws@));
    if cleaned.len() == 0 {
        return None;
    }
    let digest = crate::storage::md5_compute(url.as_bytes());
    let mut id = str_chars("web:");
    push_hex(&mut id, &digest);
    let mut t: Vec<char> = Vec::new();
    extend_chars(&mut t, &title);
    t.push('\n');
    extend_chars(&mut t, &cleaned);
    Some(Document { id: string_from_chars(&id), text: string_from_chars(&t) })
}

// ---------------------------------------------------------------------------
// OpenStreetMap elements

/// Whether a tag describes where or what a place is: an address part
/// (`addr:...`), `amenity`, `place` or `shop`.
pub open spec fn place_tag(k: Seq<char>) -> bool {
    starts_with(k, "addr:"@) || k == "amenity"@ || k == "place"@ || k == "shop"@
}

/// The `key=value` parts of the place tags, in order.
pub open spec fn place_parts(tags: Seq<(String, String)>) -> Seq<Seq<char>>
    decreases tags.len(),
{
    if tags.len() == 0 {
        Seq::empty()
    } else {
        let prev = place_parts(tags.drop_last());
        let t = tags.last();
        if place_tag(t.0@) { prev.push(t.0@.push('=') + t.1@) } else { prev }
    }
}

/// The value of the last `name` tag, if any.
pub open spec fn name_tag(tags: Seq<(String, String)>) -> Option<Seq<char>>
    decreases tags.len(),
{
    if tags.len() == 0 {
        None
    } else if tags.last().0@ == "name"@ {
        Some(tags.last().1@)
    } else {
        name_tag(tags.drop_last())
    }
}

/// The document of a named map element: identifier `osm:<kind>:<id>`, text
/// its name and then its place tags, separated by spaces. Unnamed elements
/// give none.
pub open spec fn osm_doc(kind: Seq<char>, id: int, tags: Seq<(String, String)>) -> Option<(Seq<char>, Seq<char>)> {
    match name_tag(tags) {
        Some(n) => Some(("osm:"@ + kind + seq![':'] + signed_decimal(id), join_words(seq![n] + place_parts(tags)))),
        None => None,
    }
}

/// A key that names where or what a place is: `place`, `amenity`, `shop`
/// or one that starts with `addr:`.
pub open spec fn describes_place(k: Seq<char>) -> bool {
    k == "place"@ || k == "amenity"@ || k == "shop"@ || starts_with(k, "addr:"@)
}

proof fn lemma_place_parts_complete(tags: Seq<(String, String)>)
    ensures
        forall|j: int|
            0 <= j < tags.len() && describes_place(#[trigger] tags[j].0@) ==> place_parts(tags).contains(
                tags[j].0@.push('=') + tags[j].1@,
            ),
    decreases tags.len(),
{
    if tags.len() > 0 {
        let init = tags.drop_last();
        lemma_place_parts_complete(init);
        let prev = place_parts(init);
        assert forall|j: int|
            0 <= j < tags.len() && describes_place(#[trigger] tags[j].0@) implies place_parts(tags).contains(
                tags[j].0@.push('=') + tags[j].1@,
            ) by {
            let kv = tags[j].0@.push('=') + tags[j].1@;
            if j < tags.len() - 1 {
                assert(init[j] == tags[j]);
                assert(prev.contains(kv));
                let m = choose|m: int| 0 <= m < prev.len() && prev[m] == kv;
                if place_tag(tags.last().0@) {
                    assert(place_parts(tags)[m] == kv);
                }
            } else {
                assert(place_parts(tags)[prev.len() as int] == kv);
            }
        }
    }
}

/// `p` is the `key=value` part of one of the tags that describe the place.
pub open spec fn part_of_place_tag(tags: Seq<(String, String)>, p: Seq<char>) -> bool {
    exists|j: int|
        0 <= j < tags.len() && describes_place(#[trigger] tags[j].0@) && p == tags[j].0@.push('=') + tags[j].1@
}

proof fn lemma_place_parts_sound(tags: Seq<(String, String)>)
    ensures
        forall|m: int| 0 <= m < place_parts(tags).len() ==> part_of_place_tag(tags, #[trigger] place_parts(tags)[m]),
    decreases tags.len(),
{
    if tags.len() > 0 {
        let init = tags.drop_last();
        lemma_place_parts_sound(init);
        let prev = place_parts(init);
        assert forall|m: int| 0 <= m < place_parts(tags).len() implies part_of_place_tag(
            tags,
            #[trigger] place_parts(tags)[m],
        ) by {
            if m < prev.len() {
                assert(part_of_place_tag(init, prev[m]));
                let j = choose|j: int|
                    0 <= j < init.len() && describes_place(#[trigger] init[j].0@) && prev[m] == init[j].0@.push('=')
                        + init[j].1@;
                assert(tags[j] == init[j]);
                assert(place_parts(tags)[m] == prev[m]);
                assert(describes_place(tags[j].0@));
            } else {
                let j = tags.len() - 1;
                assert(tags[j] == tags.last());
                assert(describes_place(tags[j].0@));
            }
        }
    }
}

/// A named map element gives a document whose text is its name followed by
/// its `key=value` place tags: every tag whose key is `place`, `amenity`,
/// `shop` or starts with `addr:` is among them, and nothing else is.
pub proof fn lemma_osm_text_lists_place_tags(kind: Seq<char>, id: int, tags: Seq<(String, String)>)
    requires
        name_tag(tags) is Some,
    ensures
        osm_doc(kind, id, tags) is Some,
        osm_doc(kind, id, tags).unwrap().1 == join_words(seq![name_tag(tags).unwrap()] + place_parts(tags)),
        forall|j: int|
            0 <= j < tags.len() && describes_place(#[trigger] tags[j].0@) ==> place_parts(tags).contains(
                tags[j].0@.push('=') + tags[j].1@,
            ),
        forall|m: int| 0 <= m < place_parts(tags).len() ==> part_of_place_tag(tags, #[trigger] place_parts(tags)[m]),
{
    lemma_place_parts_complete(tags);
    lemma_place_parts_sound(tags);
}

/// The document of a map node or way, from its kind (`node` or `way`), its
/// identifier and its tags.
pub fn osm_document(kind: &str, id: i64, tags: &[(String, String)]) -> (r: Option<Document>)
    ensures
        match r {
            Some(d) => osm_doc(kind@, id as int, tags@) == Some((d.id@, d.text@)),
            None => osm_doc(kind@, id as int, tags@) is None,
        },
{
    proof {
        reveal_strlit("name");
        reveal_strlit("amenity");
        reveal_strlit("place");
        reveal_strlit("shop");
        reveal_strlit("addr:");
    }
    let mut name: Option<usize> = None;
    let mut parts: Vec<Vec<char>> = Vec::new();
    let mut i: usize = 0;
    assert(tags@.take(0) =~= Seq::<(String, String)>::empty());
    while i < tags.len()
        invariant
            i <= tags.len(),
            char_words(parts@) == place_parts(tags@.take(i as int)),
            match name {
                Some(k) => k < i && name_tag(tags@.take(i as int)) == Some(tags@[k as int].1@),
                None => name_tag(tags@.take(i as int)) is None,
            },
        decreases tags.len() - i,
    {
        let k = &tags[i].0;
        let v = &tags[i].1;
        let kv = str_chars(k.as_str());
        assert(tags@.take(i + 1).drop_last() =~= tags@.take(i as int));
        assert(tags@.take(i + 1).last() == tags@[i as int]);
        if str_eq(k.as_str(), "name") {
            name = Some(i);
        }
        let addr = crate::wiki::range_starts_with(&kv, 0, kv.len(), "addr:");
        assert(kv@.subrange(0, kv@.len() as int) =~= kv@);
        if addr || str_eq(k.as_str(), "amenity") || str_eq(k.as_str(), "place") || str_eq(k.as_str(), "shop") {
            let mut p = kv;
            p.push('=');
            let vv = str_chars(v.as_str());
            extend_chars(&mut p, &vv);
            let ghost before = parts@;
            parts.push(p);
            assert(char_words(parts@) =~= char_words(before).push(tags@[i as int].0@.push('=') + tags@[i as int].1@));
        }
        i += 1;
    }
    assert(tags@.take(tags@.len() as int) =~= tags@);
    match name {
        None => None,
        Some(k) => {
            let mut all: Vec<Vec<char>> = Vec::new();
            all.push(str_chars(tags[k].1.as_str()));
            let mut j: usize = 0;
            while j < parts.len()
                invariant
                    k < tags@.len(),
                    j <= parts.len(),
                    all@.len() == j + 1,
                    char_words(all@) == seq![tags@[k as int].1@] + char_words(parts@).take(j as int),
                decreases parts.len() - j,
            {
                let ghost before = all@;
                let mut w: Vec<char> = Vec::new();
                extend_chars(&mut w, &parts[j]);
                let ghost wv = w@;
                all.push(w);
                proof {
                    assert(wv =~= parts@[j as int]@);
                    assert(all@ == before.push(all@[j + 1]));
                    assert(char_words(all@).len() == j + 2);
                    assert forall|m: int| 0 <= m <= j implies char_words(all@)[m] == char_words(before)[m] by {
                        assert(all@[m] == before[m]);
                    }
                    assert(char_words(all@)[j + 1] == parts@[j as int]@);
                    let rhs = seq![tags@[k as int].1@] + char_words(parts@).take(j + 1);
                    let old_rhs = seq![tags@[k as int].1@] + char_words(parts@).take(j as int);
                    assert forall|m: int| 0 <= m < j + 2 implies char_words(all@)[m] == rhs[m] by {
                        if m == 0 {
                            assert(char_words(before)[0] == old_rhs[0]);
                        } else if m <= j {
                            assert(char_words(before)[m] == old_rhs[m]);
                            assert(old_rhs[m] == char_words(parts@)[m - 1]);
                            assert(rhs[m] == char_words(parts@)[m - 1]);
                        } else {
                            assert(rhs[m] == char_words(parts@)[j as int]);
                        }
                    }
                    assert(char_words(all@) =~= rhs);
                }
                j += 1;
            }
            assert(char_words(parts@).take(parts@.len() as int) =~= char_words(parts@));
            let text = join_range(&all, 0, all.len());
            assert(char_words(all@).subrange(0, all@.len() as int) =~= char_words(all@));
            let mut ident = str_chars("osm:");
            let kd = str_chars(kind);
            extend_chars(&mut ident, &kd);
            ident.push(':');
            push_decimal_i64(&mut ident, id);
            proof {
                reveal_strlit("osm:");
            }
            Some(Document { id: string_from_chars(&ident), text: string_from_chars(&text) })
        },
    }
}

} // verus!
