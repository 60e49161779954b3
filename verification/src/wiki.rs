//! Turning Wikipedia dump pages into documents: stripping wiki markup from
//! page text, keeping the lead of article pages, and following the stream
//! of XML events of a dump page by page.
use vstd::prelude::*;
use crate::chars::{
    extend_chars, first_non_ws, str_chars, str_to_lowercase, string_from_chars, trim, trim_chars,
    trim_start, unicode_str_lowercase,
};
use crate::processing::{join_range, join_words, Document};
use crate::text::{
    byte_len, char_index_of_byte, char_words, lemma_byte_len_strict, sentences, split_sentences_chars,
    split_whitespace, utf8_width, words,
};

verus! {

// ---------------------------------------------------------------------------
// Markup removal

/// Where skipping a `{{ ... }}` template ends: scanning from `p` at nesting
/// depth `depth`, each `{{` opens a level and each `}}` closes one; the scan
/// ends after the `}}` that closes the first level, or at the end.
pub open spec fn nested_end(s: Seq<char>, p: int, depth: int) -> int
    decreases s.len() - p,
{
    if p >= s.len() || p < 0 {
        s.len() as int
    } else if s[p] == '{' && p + 1 < s.len() && s[p + 1] == '{' {
        nested_end(s, p + 2, depth + 1)
    } else if s[p] == '}' && p + 1 < s.len() && s[p + 1] == '}' {
        if depth <= 1 { p + 2 } else { nested_end(s, p + 2, depth - 1) }
    } else {
        nested_end(s, p + 1, depth)
    }
}

/// Where skipping an HTML tag ends: just after the first `>` from `p`, or
/// at the end.
pub open spec fn tag_end(s: Seq<char>, p: int) -> int
    decreases s.len() - p,
{
    if p >= s.len() || p < 0 {
        s.len() as int
    } else if s[p] == '>' {
        p + 1
    } else {
        tag_end(s, p + 1)
    }
}

/// The position of the first `]]` at or after `p`, if any.
pub open spec fn close_from(s: Seq<char>, p: int) -> Option<int>
    decreases s.len() - p,
{
    if p < 0 || p + 1 >= s.len() {
        None
    } else if s[p] == ']' && s[p + 1] == ']' {
        Some(p)
    } else {
        close_from(s, p + 1)
    }
}

/// Whether `s` starts with `pre`.
pub open spec fn starts_with(s: Seq<char>, pre: Seq<char>) -> bool {
    pre.len() <= s.len() && s.subrange(0, pre.len() as int) == pre
}

/// Links to files, images and categories, which cleaning drops.
pub open spec fn is_media_link(content: Seq<char>) -> bool {
    starts_with(content, "File:"@) || starts_with(content, "Image:"@) || starts_with(content, "Category:"@)
}

/// The position of the last `|` in `s[..end]`, if any.
pub open spec fn last_bar(s: Seq<char>, end: int) -> Option<int>
    decreases end,
{
    if end <= 0 {
        None
    } else if s[end - 1] == '|' {
        Some(end - 1)
    } else {
        last_bar(s, end - 1)
    }
}

/// The text a link shows: what follows its last `|`, or all of it.
pub open spec fn link_label(content: Seq<char>) -> Seq<char> {
    match last_bar(content, content.len() as int) {
        Some(b) => content.subrange(b + 1, content.len() as int),
        None => content,
    }
}

pub proof fn lemma_nested_end_bounds(s: Seq<char>, p: int, depth: int)
    requires
        0 <= p <= s.len(),
    ensures
        p <= nested_end(s, p, depth) <= s.len(),
    decreases s.len() - p,
{
    if p < s.len() {
        if s[p] == '{' && p + 1 < s.len() && s[p + 1] == '{' {
            lemma_nested_end_bounds(s, p + 2, depth + 1);
        } else if s[p] == '}' && p + 1 < s.len() && s[p + 1] == '}' {
            if depth > 1 {
                lemma_nested_end_bounds(s, p + 2, depth - 1);
            }
        } else {
            lemma_nested_end_bounds(s, p + 1, depth);
        }
    }
}

pub proof fn lemma_tag_end_bounds(s: Seq<char>, p: int)
    requires
        0 <= p <= s.len(),
    ensures
        p <= tag_end(s, p) <= s.len(),
    decreases s.len() - p,
{
    if p < s.len() && s[p] != '>' {
        lemma_tag_end_bounds(s, p + 1);
    }
}

pub proof fn lemma_close_from_bounds(s: Seq<char>, p: int)
    requires
        0 <= p,
    ensures
        match close_from(s, p) {
            Some(q) => p <= q && q + 1 < s.len() && s[q] == ']' && s[q + 1] == ']',
            None => true,
        },
    decreases s.len() - p,
{
    if p + 1 < s.len() && !(s[p] == ']' && s[p + 1] == ']') {
        lemma_close_from_bounds(s, p + 1);
    }
}

/// The text that cleaning keeps from position `i` on, before spaces are
/// collapsed: templates `{{ ... }}` and tags `< ... >` are dropped, a link
/// `[[ ... ]]` becomes its label and a space (links to files, images and
/// categories, and an unclosed link, are dropped), newlines become spaces,
/// and every other character stays.
pub open spec fn wiki_scan(s: Seq<char>, i: int) -> Seq<char>
    decreases s.len() - i,
{
    if i >= s.len() || i < 0 {
        Seq::empty()
    } else {
        let c = s[i];
        if c == '{' && i + 1 < s.len() && s[i + 1] == '{' {
            proof {
                lemma_nested_end_bounds(s, i + 1, 1);
            }
            wiki_scan(s, nested_end(s, i + 1, 1))
        } else if c == '<' {
            proof {
                lemma_tag_end_bounds(s, i + 1);
            }
            wiki_scan(s, tag_end(s, i + 1))
        } else if c == '[' && i + 1 < s.len() && s[i + 1] == '[' {
            proof {
                lemma_close_from_bounds(s, i + 2);
            }
            match close_from(s, i + 2) {
                None => Seq::empty(),
                Some(q) => {
                    let content = s.subrange(i + 2, q);
                    if is_media_link(content) {
                        wiki_scan(s, q + 2)
                    } else {
                        link_label(content).push(' ') + wiki_scan(s, q + 2)
                    }
                },
            }
        } else if c == '\n' {
            seq![' '] + wiki_scan(s, i + 1)
        } else {
            seq![c] + wiki_scan(s, i + 1)
        }
    }
}

/// A wiki page's text without markup, its words separated by single spaces.
pub open spec fn cleaned_wiki(s: Seq<char>) -> Seq<char> {
    join_words(words(wiki_scan(s, 0)))
}

/// Skips a template whose first `{` was read; `p` is the position after it.
fn skip_nested(v: &Vec<char>, p: usize) -> (r: usize)
    requires
        p <= v.len(),
    ensures
        r == nested_end(v@, p as int, 1),
{
    let mut depth: usize = 1;
    let mut q: usize = p;
    while q < v.len()
        invariant
            p <= q <= v.len(),
            1 <= depth <= q + 1,
            nested_end(v@, q as int, depth as int) == nested_end(v@, p as int, 1),
        decreases v.len() - q,
    {
        let c = v[q];
        if c == '{' && q + 1 < v.len() && v[q + 1] == '{' {
            depth = depth + 1;
            q = q + 2;
        } else if c == '}' && q + 1 < v.len() && v[q + 1] == '}' {
            if depth <= 1 {
                return q + 2;
            }
            depth = depth - 1;
            q = q + 2;
        } else {
            q = q + 1;
        }
    }
    q
}

/// Skips a tag whose `<` was read; `p` is the position after it.
fn skip_tag(v: &Vec<char>, p: usize) -> (r: usize)
    requires
        p <= v.len(),
    ensures
        r == tag_end(v@, p as int),
{
    let mut q: usize = p;
    while q < v.len()
        invariant
            p <= q <= v.len(),
            tag_end(v@, q as int) == tag_end(v@, p as int),
        decreases v.len() - q,
    {
        if v[q] == '>' {
            return q + 1;
        }
        q = q + 1;
    }
    q
}

/// Reads a link's content up to the closing `]]`, from `p`: the position of
/// the `]]`, if there is one.
fn read_until(v: &Vec<char>, p: usize) -> (r: Option<usize>)
    requires
        p <= v.len(),
    ensures
        match r {
            Some(q) => close_from(v@, p as int) == Some(q as int),
            None => close_from(v@, p as int) is None,
        },
{
    let mut q: usize = p;
    while q < v.len()
        invariant
            p <= q <= v.len(),
            close_from(v@, q as int) == close_from(v@, p as int),
        decreases v.len() - q,
    {
        if q + 1 >= v.len() {
            return None;
        }
        if v[q] == ']' && v[q + 1] == ']' {
            return Some(q);
        }
        q = q + 1;
    }
    None
}

/// Whether `v[from..to]` starts with `pre`.
pub fn range_starts_with(v: &Vec<char>, from: usize, to: usize, pre: &str) -> (r: bool)
    requires
        from <= to <= v.len(),
    ensures
        r == starts_with(v@.subrange(from as int, to as int), pre@),
{
    let p = str_chars(pre);
    if p.len() > to - from {
        return false;
    }
    let mut k: usize = 0;
    while k < p.len()
        invariant
            p@ == pre@,
            p.len() <= to - from,
            from <= to <= v.len(),
            k <= p.len(),
            forall|j: int| 0 <= j < k ==> v@[from + j] == p@[j],
        decreases p.len() - k,
    {
        if v[from + k] != p[k] {
            assert(v@.subrange(from as int, to as int).subrange(0, p@.len() as int)[k as int] != pre@[k as int]);
            return false;
        }
        k += 1;
    }
    assert(v@.subrange(from as int, to as int).subrange(0, p@.len() as int) =~= pre@);
    true
}

/// Appends the label of the link `v[from..to]`, then a space.
fn push_label(out: &mut Vec<char>, v: &Vec<char>, from: usize, to: usize)
    requires
        from <= to <= v.len(),
    ensures
        final(out)@ == old(out)@ + link_label(v@.subrange(from as int, to as int)).push(' '),
{
    let ghost content = v@.subrange(from as int, to as int);
    let mut b: usize = to;
    while b > from && v[b - 1] != '|'
        invariant
            from <= b <= to <= v.len(),
            content == v@.subrange(from as int, to as int),
            last_bar(content, (b - from) as int) == last_bar(content, (to - from) as int),
        decreases b,
    {
        assert(content[(b - from) - 1] == v@[b - 1]);
        b = b - 1;
    }
    let start = if b > from { b } else { from };
    proof {
        if b > from {
            assert(content[(b - from) - 1] == v@[b - 1]);
            assert(content[(b - from) - 1] == '|');
            assert(last_bar(content, content.len() as int) == Some((b - from) - 1));
        } else {
            assert(last_bar(content, 0) is None);
        }
    }
    let ghost o0 = out@;
    let mut k: usize = start;
    while k < to
        invariant
            start <= k <= to <= v.len(),
            out@ == o0 + v@.subrange(start as int, k as int),
        decreases to - k,
    {
        out.push(v[k]);
        assert(v@.subrange(start as int, k + 1) =~= v@.subrange(start as int, k as int).push(v@[k as int]));
        k += 1;
    }
    out.push(' ');
    proof {
        assert(link_label(content) =~= v@.subrange(start as int, to as int));
    }
}

/// Removes wiki markup from a page's text and collapses its whitespace.
pub fn clean_wiki_text(text: &str) -> (r: String)
    ensures
        r@ == cleaned_wiki(text@),
{
    let v = str_chars(text);
    let mut out: Vec<char> = Vec::new();
    let mut i: usize = 0;
    while i < v.len()
        invariant
            v@ == text@,
            i <= v.len(),
            out@ + wiki_scan(v@, i as int) == wiki_scan(v@, 0),
        decreases v.len() - i,
    {
        let c = v[i];
        if c == '{' && i + 1 < v.len() && v[i + 1] == '{' {
            let q = skip_nested(&v, i + 1);
            proof {
                lemma_nested_end_bounds(v@, i + 1, 1);
            }
            i = q;
        } else if c == '<' {
            let q = skip_tag(&v, i + 1);
            proof {
                lemma_tag_end_bounds(v@, i + 1);
            }
            i = q;
        } else if c == '[' && i + 1 < v.len() && v[i + 1] == '[' {
            match read_until(&v, i + 2) {
                None => {
                    proof {
                        assert(out@ + Seq::<char>::empty() =~= out@);
                    }
                    i = v.len();
                },
                Some(q) => {
                    proof {
                        lemma_close_from_bounds(v@, i + 2);
                    }
                    let media = range_starts_with(&v, i + 2, q, "File:") || range_starts_with(&v, i + 2, q, "Image:")
                        || range_starts_with(&v, i + 2, q, "Category:");
                    if !media {
                        let ghost o = out@;
                        push_label(&mut out, &v, i + 2, q);
                        proof {
                            assert(out@ + wiki_scan(v@, q + 2) =~= o + (link_label(v@.subrange(i + 2, q as int)).push(' ')
                                + wiki_scan(v@, q + 2)));
                        }
                    }
                    i = q + 2;
                },
            }
        } else {
            let ghost o = out@;
            if c == '\n' {
                out.push(' ');
            } else {
                out.push(c);
            }
            proof {
                assert(out@ + wiki_scan(v@, i + 1) =~= o + (seq![if c == '\n' { ' ' } else { c }] + wiki_scan(v@, i + 1)));
            }
            i = i + 1;
        }
    }
    proof {
        assert(out@ =~= out@ + wiki_scan(v@, i as int));
    }
    let ws = split_whitespace(&out);
    let joined = join_range(&ws, 0, ws.len());
    assert(char_words(ws@).subrange(0, ws@.len() as int) =~= char_words(ws@));
    string_from_chars(&joined)
}

// ---------------------------------------------------------------------------
// Pages

/// Title prefixes of pages outside the article namespace.
pub open spec fn namespace_prefixes() -> Seq<Seq<char>> {
    seq![
        "wikipedia:"@,
        "category:"@,
        "file:"@,
        "template:"@,
        "help:"@,
        "portal:"@,
        "draft:"@,
        "user:"@,
        "talk:"@,
        "special:"@,
    ]
}

/// Whether a title, lowercased, starts with a namespace prefix.
pub open spec fn namespace_title(title: Seq<char>) -> bool {
    exists|k: int| 0 <= k < namespace_prefixes().len() && starts_with(unicode_str_lowercase(title), #[trigger] namespace_prefixes()[k])
}

/// A title is a namespace title exactly when, lowercased, it starts with
/// `wikipedia:`, `category:`, `file:`, `template:`, `help:`, `portal:`,
/// `draft:`, `user:`, `talk:` or `special:`.
pub proof fn lemma_namespace_title_prefixes(title: Seq<char>)
    ensures
        namespace_title(title) <==> ({
            let t = unicode_str_lowercase(title);
            ||| starts_with(t, "wikipedia:"@)
            ||| starts_with(t, "category:"@)
            ||| starts_with(t, "file:"@)
            ||| starts_with(t, "template:"@)
            ||| starts_with(t, "help:"@)
            ||| starts_with(t, "portal:"@)
            ||| starts_with(t, "draft:"@)
            ||| starts_with(t, "user:"@)
            ||| starts_with(t, "talk:"@)
            ||| starts_with(t, "special:"@)
        }),
{
    let ps = namespace_prefixes();
    assert(ps.len() == 10);
    assert(ps[0] == "wikipedia:"@);
    assert(ps[1] == "category:"@);
    assert(ps[2] == "file:"@);
    assert(ps[3] == "template:"@);
    assert(ps[4] == "help:"@);
    assert(ps[5] == "portal:"@);
    assert(ps[6] == "draft:"@);
    assert(ps[7] == "user:"@);
    assert(ps[8] == "talk:"@);
    assert(ps[9] == "special:"@);
}

/// The core import writes nothing for a page whose lowercased title starts
/// with a namespace prefix (`wikipedia:`, `category:`, `talk:` and the
/// others of `lemma_namespace_title_prefixes`): the page is skipped, the
/// import goes on and the count stays.
pub proof fn lemma_core_import_skips_namespace_pages(before: WikiImport, after: WikiImport, r: WikiStep)
    requires
        before.core is Some,
        ({
            let t = unicode_str_lowercase(before.title@);
            ||| starts_with(t, "wikipedia:"@)
            ||| starts_with(t, "category:"@)
            ||| starts_with(t, "file:"@)
            ||| starts_with(t, "template:"@)
            ||| starts_with(t, "help:"@)
            ||| starts_with(t, "portal:"@)
            ||| starts_with(t, "draft:"@)
            ||| starts_with(t, "user:"@)
            ||| starts_with(t, "talk:"@)
            ||| starts_with(t, "special:"@)
        }),
        end_of_page(before, after, r),
    ensures
        r is Continue,
        after.count == before.count,
{
    lemma_namespace_title_prefixes(before.title@);
    assert(core_skips(before.title@, before.page_id@, before.text@));
}

/// Whether `pre` starts the character vector `v`.
fn vec_starts_with(v: &Vec<char>, pre: &str) -> (r: bool)
    ensures
        r == starts_with(v@, pre@),
{
    let r = range_starts_with(v, 0, v.len(), pre);
    assert(v@.subrange(0, v@.len() as int) =~= v@);
    r
}

/// Whether a page title belongs to a namespace other than articles
/// (Wikipedia:, Category:, File:, Template:, Help:, Portal:, Draft:, User:,
/// Talk:, Special:), in any letter case.
pub fn is_namespace_title(title: &str) -> (r: bool)
    ensures
        r == namespace_title(title@),
{
    let lower = str_to_lowercase(title);
    let t = str_chars(lower.as_str());
    let prefixes: Vec<&str> = vec![
        "wikipedia:", "category:", "file:", "template:", "help:", "portal:", "draft:", "user:", "talk:",
        "special:",
    ];
    proof {
        assert(crate::text::str_views(prefixes@) =~= namespace_prefixes());
    }
    let mut k: usize = 0;
    while k < prefixes.len()
        invariant
            t@ == unicode_str_lowercase(title@),
            crate::text::str_views(prefixes@) == namespace_prefixes(),
            k <= prefixes.len(),
            forall|j: int| 0 <= j < k ==> !starts_with(t@, #[trigger] namespace_prefixes()[j]),
        decreases prefixes.len() - k,
    {
        assert(prefixes@[k as int]@ == namespace_prefixes()[k as int]);
        if vec_starts_with(&t, prefixes[k]) {
            return true;
        }
        k += 1;
    }
    false
}

/// Whether cleaned page text is a redirect: lowercased after its leading
/// whitespace, it starts with `#redirect` or `redirect`.
pub open spec fn redirect_text(cleaned: Seq<char>) -> bool {
    let n = unicode_str_lowercase(trim_start(cleaned));
    starts_with(n, "#redirect"@) || starts_with(n, "redirect"@)
}

/// Whether cleaned page text is a redirect.
fn is_redirect(cleaned: &Vec<char>) -> (r: bool)
    ensures
        r == redirect_text(cleaned@),
{
    let i = first_non_ws(cleaned);
    let rest = crate::chars::string_from_range(cleaned, i, cleaned.len());
    let lower = str_to_lowercase(rest.as_str());
    let n = str_chars(lower.as_str());
    vec_starts_with(&n, "#redirect") || vec_starts_with(&n, "redirect")
}

/// The lead built from the first sentences of a page: trimmed non-empty
/// sentences joined by spaces until the lead reaches `max` bytes, where it is
/// cut to `max` bytes and ends. `None` when that cut does not fall between
/// two characters. The flag tells whether the lead has ended.
pub open spec fn lead_pass(ss: Seq<Seq<char>>, max: nat) -> Option<(Seq<char>, bool)>
    decreases ss.len(),
{
    if ss.len() == 0 {
        Some((Seq::empty(), false))
    } else {
        match lead_pass(ss.drop_last(), max) {
            None => None,
            Some(p) => {
                if p.1 {
                    Some(p)
                } else {
                    let t = trim(ss.last());
                    if t.len() == 0 {
                        Some(p)
                    } else {
                        let l = if p.0.len() == 0 { t } else { p.0.push(' ') + t };
                        if byte_len(l) >= max {
                            match char_index_of_byte(l, max as int) {
                                Some(k) => Some((l.take(k), true)),
                                None => None,
                            }
                        } else {
                            Some((l, false))
                        }
                    }
                }
            },
        }
    }
}

/// `s` with every occurrence of `pat` removed, matching from the left.
pub open spec fn remove_all(s: Seq<char>, pat: Seq<char>) -> Seq<char>
    decreases s.len(),
{
    if s.len() == 0 {
        s
    } else if pat.len() > 0 && starts_with(s, pat) {
        remove_all(s.subrange(pat.len() as int, s.len() as int), pat)
    } else {
        seq![s[0]] + remove_all(s.drop_first(), pat)
    }
}

/// The sentences a lead is built from: the first `n` (at least one) of the
/// cleaned text.
pub open spec fn lead_sentences(cleaned: Seq<char>, n: nat) -> Seq<Seq<char>> {
    let k: int = if n == 0 { 1 } else { n as int };
    let ss = sentences(cleaned);
    if k < ss.len() { ss.take(k) } else { ss }
}

/// The lead of a page as the core pack keeps it, if the cut at `max` bytes
/// falls between characters: bold and italic quote marks removed and spaces
/// collapsed.
pub open spec fn core_lead(cleaned: Seq<char>, n: nat, max: nat) -> Option<Seq<char>> {
    match lead_pass(lead_sentences(cleaned, n), max) {
        Some(p) => Some(join_words(words(remove_all(remove_all(p.0, "'''"@), "''"@)))),
        None => None,
    }
}

/// The first `k` with `byte_len(l[..k]) == max`, if `max` falls between two
/// characters of `l`.
fn char_cut(l: &Vec<char>, max: usize) -> (r: Option<usize>)
    ensures
        match r {
            Some(k) => char_index_of_byte(l@, max as int) == Some(k as int) && k <= l.len(),
            None => char_index_of_byte(l@, max as int) is None,
        },
{
    let mut acc: u128 = 0;
    let mut k: usize = 0;
    assert(l@.take(0) =~= Seq::<char>::empty());
    while k < l.len() && acc < max as u128
        invariant
            k <= l.len(),
            acc == byte_len(l@.take(k as int)),
            forall|j: int| 0 <= j < k ==> byte_len(#[trigger] l@.take(j)) < max,
        decreases l.len() - k,
    {
        let u = l[k] as u32;
        let w: u128 = if u < 0x80 {
            1
        } else if u < 0x800 {
            2
        } else if u < 0x10000 {
            3
        } else {
            4
        };
        assert(l@.take(k + 1).drop_last() =~= l@.take(k as int));
        assert(l@.take(k + 1).last() == l@[k as int]);
        assert(w == utf8_width(l@[k as int]));
        acc = acc + w;
        k += 1;
    }
    if acc == max as u128 {
        proof {
            assert(byte_len(l@.take(k as int)) == max);
            assert forall|j: int| 0 <= j <= l@.len() && byte_len(l@.take(j)) == max implies j == k by {
                if j < k {
                } else if j > k {
                    lemma_byte_len_strict(l@, k as int, j);
                }
            }
        }
        Some(k)
    } else {
        proof {
            assert forall|j: int| 0 <= j <= l@.len() implies byte_len(#[trigger] l@.take(j)) != max by {
                if j < k {
                } else if j > k {
                    if acc > max {
                        lemma_byte_len_strict(l@, k as int, j);
                    } else {
                        assert(k == l@.len());
                    }
                } else {
                }
            }
        }
        None
    }
}

/// Removes every occurrence of `pat` from `v`, matching from the left.
fn remove_pattern(v: &Vec<char>, pat: &str) -> (r: Vec<char>)
    requires
        pat@.len() > 0,
    ensures
        r@ == remove_all(v@, pat@),
{
    let p = str_chars(pat);
    let mut out: Vec<char> = Vec::new();
    let mut i: usize = 0;
    assert(v@.subrange(0, v@.len() as int) =~= v@);
    while i < v.len()
        invariant
            p@ == pat@,
            p@.len() > 0,
            i <= v.len(),
            out@ + remove_all(v@.subrange(i as int, v@.len() as int), pat@) == remove_all(v@, pat@),
        decreases v.len() - i,
    {
        let ghost rest = v@.subrange(i as int, v@.len() as int);
        let hit = range_starts_with(v, i, v.len(), pat);
        if hit {
            assert(rest.subrange(p@.len() as int, rest.len() as int) =~= v@.subrange(i + p@.len(), v@.len() as int));
            i = i + p.len();
        } else {
            let ghost o = out@;
            out.push(v[i]);
            assert(rest.drop_first() =~= v@.subrange(i + 1, v@.len() as int));
            assert(out@ + remove_all(v@.subrange(i + 1, v@.len() as int), pat@) =~= o + (seq![rest[0]] + remove_all(rest.drop_first(), pat@)));
            i = i + 1;
        }
    }
    assert(v@.subrange(v@.len() as int, v@.len() as int) =~= Seq::<char>::empty());
    assert(out@ + Seq::<char>::empty() =~= out@);
    out
}

/// The lead of a cleaned page for the core pack: its first `sentences`
/// sentences (at least one), trimmed and joined, cut at `max_chars` bytes,
/// without bold and italic quote marks and with spaces collapsed; `None`
/// when the cut at `max_chars` bytes would fall inside a character.
pub fn lead_text(cleaned: &Vec<char>, sentences: usize, max_chars: usize) -> (r: Option<Vec<char>>)
    ensures
        match r {
            Some(l) => core_lead(cleaned@, sentences as nat, max_chars as nat) == Some(l@),
            None => core_lead(cleaned@, sentences as nat, max_chars as nat) is None,
        },
{
    let all = split_sentences_chars(cleaned);
    let n: usize = if sentences == 0 { 1 } else { sentences };
    let take = if n < all.len() { n } else { all.len() };
    let ghost ss = lead_sentences(cleaned@, sentences as nat);
    proof {
        assert(ss =~= char_words(all@).take(take as int));
    }
    let mut lead: Vec<char> = Vec::new();
    let mut done = false;
    let mut i: usize = 0;
    assert(ss.take(0) =~= Seq::<Seq<char>>::empty());
    while i < take
        invariant
            take <= all.len(),
            ss == char_words(all@).take(take as int),
            ss == lead_sentences(cleaned@, sentences as nat),
            i <= take,
            lead_pass(ss.take(i as int), max_chars as nat) == Some((lead@, done)),
        decreases take - i,
    {
        proof {
            assert(ss.take(i + 1).drop_last() =~= ss.take(i as int));
            assert(ss.take(i + 1).last() == all@[i as int]@);
        }
        if !done {
            let t = trim_chars(&all[i]);
            if t.len() > 0 {
                if lead.len() > 0 {
                    lead.push(' ');
                }
                extend_chars(&mut lead, &t);
                let blen = crate::text::utf8_len_checked(&lead);
                let over = match blen {
                    Some(b) => b >= max_chars,
                    None => true,
                };
                if over {
                    match char_cut(&lead, max_chars) {
                        Some(k) => {
                            let mut cut: Vec<char> = Vec::new();
                            let mut j: usize = 0;
                            while j < k
                                invariant
                                    k <= lead.len(),
                                    j <= k,
                                    cut@ == lead@.take(j as int),
                                decreases k - j,
                            {
                                cut.push(lead[j]);
                                assert(lead@.take(j + 1) =~= lead@.take(j as int).push(lead@[j as int]));
                                j += 1;
                            }
                            lead = cut;
                            done = true;
                        },
                        None => {
                            proof {
                                assert(lead_pass(ss.take(i + 1), max_chars as nat) is None);
                                lemma_lead_pass_none(ss, i + 1, take as int, max_chars as nat);
                                assert(ss.take(take as int) =~= ss);
                                assert(lead_pass(ss, max_chars as nat) is None);
                                assert(ss == lead_sentences(cleaned@, sentences as nat));
                                assert(core_lead(cleaned@, sentences as nat, max_chars as nat) is None);
                            }
                            return None;
                        },
                    }
                }
            }
        }
        i += 1;
    }
    assert(ss.take(take as int) =~= ss);
    proof {
        reveal_strlit("'''");
        reveal_strlit("''");
    }
    let a = remove_pattern(&lead, "'''");
    let b = remove_pattern(&a, "''");
    let ws = split_whitespace(&b);
    let joined = join_range(&ws, 0, ws.len());
    assert(char_words(ws@).subrange(0, ws@.len() as int) =~= char_words(ws@));
    Some(joined)
}

proof fn lemma_lead_pass_none(ss: Seq<Seq<char>>, a: int, b: int, max: nat)
    requires
        0 <= a <= b <= ss.len(),
        lead_pass(ss.take(a), max) is None,
    ensures
        lead_pass(ss.take(b), max) is None,
    decreases b - a,
{
    if a < b {
        lemma_lead_pass_none(ss, a, b - 1, max);
        assert(ss.take(b).drop_last() =~= ss.take(b - 1));
    }
}

/// The document of a page: identifier `wiki:<id>` and text `<title>\n<body>`.
pub open spec fn wiki_doc(title: Seq<char>, id: Seq<char>, body: Seq<char>) -> (Seq<char>, Seq<char>) {
    ("wiki:"@ + id, title.push('\n') + body)
}

/// What a full import keeps of a page: its cleaned text, when the page has
/// a title and some text is left after cleaning.
pub open spec fn page_document(title: Seq<char>, id: Seq<char>, text: Seq<char>) -> Option<(Seq<char>, Seq<char>)> {
    let cleaned = cleaned_wiki(text);
    if title.len() > 0 && cleaned.len() > 0 {
        Some(wiki_doc(title, id, cleaned))
    } else {
        None
    }
}

/// Whether the core import skips a page before building its lead: no title,
/// no identifier, a namespace page, no text left after cleaning, or a
/// redirect.
pub open spec fn core_skips(title: Seq<char>, id: Seq<char>, text: Seq<char>) -> bool {
    title.len() == 0 || id.len() == 0 || namespace_title(title) || cleaned_wiki(text).len() == 0
        || redirect_text(cleaned_wiki(text))
}

/// Builds `wiki:<id>` and `<title>\n<body>`.
fn make_wiki_doc(title: &Vec<char>, id: &Vec<char>, body: &Vec<char>) -> (r: Document)
    ensures
        (r.id@, r.text@) == wiki_doc(title@, id@, body@),
{
    let mut i = str_chars("wiki:");
    extend_chars(&mut i, id);
    let mut t: Vec<char> = Vec::new();
    extend_chars(&mut t, title);
    t.push('\n');
    extend_chars(&mut t, body);
    Document { id: string_from_chars(&i), text: string_from_chars(&t) }
}

/// An event of the XML reader of a dump, as the import reads it.
#[derive(Debug)]
pub enum XmlEvent {
    /// An element starts; its name.
    Start(String),
    /// An element ends; its name.
    End(String),
    /// Text content, unescaped; `None` when unescaping failed.
    Text(Option<String>),
    /// The end of the input.
    Eof,
    /// A read error.
    Failed,
    /// Any other event.
    Other,
}

/// What the import does after an event.
#[derive(Debug)]
pub enum WikiStep {
    /// Read the next event.
    Continue,
    /// Write the document, then read the next event.
    Emit(Document),
    /// Write the document, then stop: the limit is reached.
    EmitAndStop(Document),
    /// Stop.
    Stop,
    /// The lead's cut falls inside a character.
    CutInsideChar,
}

/// The state of importing a dump: where in a page the reader is, what the
/// current page has gathered, how many documents were written, and the
/// settings of the import (`core` holds the number of lead sentences and the
/// lead's byte limit of a core import).
pub struct WikiImport {
    pub in_page: bool,
    pub in_title: bool,
    pub in_id: bool,
    pub in_text: bool,
    pub title: String,
    pub page_id: String,
    pub text: String,
    pub count: usize,
    pub limit: Option<usize>,
    pub core: Option<(usize, usize)>,
}

/// Whether the limit, if any, is reached after `count` documents.
pub open spec fn limit_reached(limit: Option<usize>, count: int) -> bool {
    match limit {
        Some(l) => count >= l,
        None => false,
    }
}

impl WikiImport {
    /// The state at the start of a dump.
    pub fn new(limit: Option<usize>, core: Option<(usize, usize)>) -> (r: Self)
        ensures
            !r.in_page && !r.in_title && !r.in_id && !r.in_text,
            r.title@.len() == 0 && r.page_id@.len() == 0 && r.text@.len() == 0,
            r.count == 0,
            r.limit == limit,
            r.core == core,
    {
        WikiImport {
            in_page: false,
            in_title: false,
            in_id: false,
            in_text: false,
            title: String::new(),
            page_id: String::new(),
            text: String::new(),
            count: 0,
            limit,
            core,
        }
    }

    /// Takes one event of the dump and says what to do next. A page's title,
    /// first identifier and text are gathered between its start and end; at
    /// its end the page becomes a document (see `page_document`, and
    /// `core_skips` and `core_lead` for a core import), the count grows, and
    /// the import stops once the limit is reached. The end of the input and
    /// read errors stop it.
    pub fn step(&mut self, ev: XmlEvent) -> (r: WikiStep)
        requires
            old(self).count < usize::MAX,
        ensures
            final(self).limit == old(self).limit,
            final(self).core == old(self).core,
            match ev {
                XmlEvent::Start(n) => {
                    &&& r is Continue
                    &&& final(self).count == old(self).count
                    &&& if n@ == "page"@ {
                        final(self).in_page && final(self).in_title == old(self).in_title
                            && final(self).in_id == old(self).in_id && final(self).in_text == old(self).in_text
                            && final(self).title@.len() == 0 && final(self).page_id@.len() == 0
                            && final(self).text@.len() == 0
                    } else {
                        &&& final(self).in_page == old(self).in_page
                        &&& final(self).title@ == old(self).title@
                        &&& final(self).page_id@ == old(self).page_id@
                        &&& final(self).text@ == old(self).text@
                        &&& final(self).in_title == (old(self).in_title || n@ == "title"@)
                        &&& final(self).in_id == (old(self).in_id || (n@ == "id"@ && old(self).in_page
                            && old(self).page_id@.len() == 0))
                        &&& final(self).in_text == (old(self).in_text || n@ == "text"@)
                    }
                },
                XmlEvent::End(n) => {
                    if n@ == "page"@ {
                        &&& !final(self).in_page && !final(self).in_title && !final(self).in_id && !final(self).in_text
                        &&& end_of_page(*old(self), *final(self), r)
                    } else {
                        &&& r is Continue
                        &&& final(self).count == old(self).count
                        &&& final(self).in_page == old(self).in_page
                        &&& final(self).title@ == old(self).title@
                        &&& final(self).page_id@ == old(self).page_id@
                        &&& final(self).text@ == old(self).text@
                        &&& final(self).in_title == (old(self).in_title && n@ != "title"@)
                        &&& final(self).in_id == (old(self).in_id && n@ != "id"@)
                        &&& final(self).in_text == (old(self).in_text && n@ != "text"@)
                    }
                },
                XmlEvent::Text(t) => {
                    &&& r is Continue
                    &&& final(self).count == old(self).count
                    &&& final(self).in_page == old(self).in_page && final(self).in_title == old(self).in_title
                        && final(self).in_id == old(self).in_id && final(self).in_text == old(self).in_text
                    &&& final(self).title@ == if old(self).in_title && t is Some {
                        old(self).title@ + t.unwrap()@
                    } else {
                        old(self).title@
                    }
                    &&& final(self).page_id@ == if !old(self).in_title && old(self).in_id && t is Some {
                        old(self).page_id@ + t.unwrap()@
                    } else {
                        old(self).page_id@
                    }
                    &&& final(self).text@ == if !old(self).in_title && !old(self).in_id && old(self).in_text && t is Some {
                        old(self).text@ + t.unwrap()@
                    } else {
                        old(self).text@
                    }
                },
                XmlEvent::Eof => r is Stop,
                XmlEvent::Failed => r is Stop,
                XmlEvent::Other => r is Continue && final(self).count == old(self).count
                    && final(self).in_page == old(self).in_page && final(self).in_title == old(self).in_title
                    && final(self).in_id == old(self).in_id && final(self).in_text == old(self).in_text
                    && final(self).title@ == old(self).title@ && final(self).page_id@ == old(self).page_id@
                    && final(self).text@ == old(self).text@,
            },
    {
        match ev {
            XmlEvent::Start(n) => {
                proof {
                    lemma_tag_names_distinct();
                }
                if str_eq_lit(n.as_str(), "page") {
                    self.in_page = true;
                    self.title = String::new();
                    self.page_id = String::new();
                    self.text = String::new();
                } else if str_eq_lit(n.as_str(), "title") {
                    self.in_title = true;
                } else if str_eq_lit(n.as_str(), "id") {
                    if self.in_page && str_chars(self.page_id.as_str()).len() == 0 {
                        self.in_id = true;
                    }
                } else if str_eq_lit(n.as_str(), "text") {
                    self.in_text = true;
                }
                WikiStep::Continue
            },
            XmlEvent::End(n) => {
                proof {
                    lemma_tag_names_distinct();
                }
                if str_eq_lit(n.as_str(), "page") {
                    self.in_page = false;
                    self.in_title = false;
                    self.in_id = false;
                    self.in_text = false;
                    self.finish_page()
                } else {
                    if str_eq_lit(n.as_str(), "title") {
                        self.in_title = false;
                    } else if str_eq_lit(n.as_str(), "id") {
                        self.in_id = false;
                    } else if str_eq_lit(n.as_str(), "text") {
                        self.in_text = false;
                    }
                    WikiStep::Continue
                }
            },
            XmlEvent::Text(t) => {
                match t {
                    Some(t) => {
                        let tv = str_chars(t.as_str());
                        if self.in_title {
                            let mut v = str_chars(self.title.as_str());
                            extend_chars(&mut v, &tv);
                            self.title = string_from_chars(&v);
                        } else if self.in_id {
                            let mut v = str_chars(self.page_id.as_str());
                            extend_chars(&mut v, &tv);
                            self.page_id = string_from_chars(&v);
                        } else if self.in_text {
                            let mut v = str_chars(self.text.as_str());
                            extend_chars(&mut v, &tv);
                            self.text = string_from_chars(&v);
                        }
                    },
                    None => {},
                }
                WikiStep::Continue
            },
            XmlEvent::Eof => WikiStep::Stop,
            XmlEvent::Failed => WikiStep::Stop,
            XmlEvent::Other => WikiStep::Continue,
        }
    }

    /// The end of a page: the document it gives, if any, and whether to stop.
    fn finish_page(&mut self) -> (r: WikiStep)
        requires
            old(self).count < usize::MAX,
        ensures
            final(self).limit == old(self).limit,
            final(self).core == old(self).core,
            final(self).in_page == old(self).in_page && final(self).in_title == old(self).in_title
                && final(self).in_id == old(self).in_id && final(self).in_text == old(self).in_text,
            end_of_page(*old(self), *final(self), r),
    {
        let title = str_chars(self.title.as_str());
        let id = str_chars(self.page_id.as_str());
        let cleaned_s = clean_wiki_text(self.text.as_str());
        let cleaned = str_chars(cleaned_s.as_str());
        match self.core {
            None => {
                let doc = if title.len() > 0 && cleaned.len() > 0 {
                    self.count = self.count + 1;
                    Some(make_wiki_doc(&title, &id, &cleaned))
                } else {
                    None
                };
                let stop = match self.limit {
                    Some(l) => self.count >= l,
                    None => false,
                };
                match doc {
                    Some(d) => if stop { WikiStep::EmitAndStop(d) } else { WikiStep::Emit(d) },
                    None => if stop { WikiStep::Stop } else { WikiStep::Continue },
                }
            },
            Some((n, max)) => {
                if title.len() == 0 || id.len() == 0 || is_namespace_title(self.title.as_str()) || cleaned.len() == 0
                    || is_redirect(&cleaned) {
                    return WikiStep::Continue;
                }
                match lead_text(&cleaned, n, max) {
                    None => WikiStep::CutInsideChar,
                    Some(lead) => {
                        let doc = if lead.len() > 0 {
                            self.count = self.count + 1;
                            Some(make_wiki_doc(&title, &id, &lead))
                        } else {
                            None
                        };
                        let stop = match self.limit {
                            Some(l) => self.count >= l,
                            None => false,
                        };
                        match doc {
                            Some(d) => if stop { WikiStep::EmitAndStop(d) } else { WikiStep::Emit(d) },
                            None => if stop { WikiStep::Stop } else { WikiStep::Continue },
                        }
                    },
                }
            },
        }
    }
}

/// What the end of a page does, given the state before it: the document of
/// the page, one more in the count when there is one, and a stop once the
/// limit is reached. A core import skips pages by `core_skips` without
/// looking at the limit, and builds the document from `core_lead`.
pub open spec fn end_of_page(before: WikiImport, after: WikiImport, r: WikiStep) -> bool {
    let title = before.title@;
    let id = before.page_id@;
    let text = before.text@;
    let doc: Option<(Seq<char>, Seq<char>)> = match before.core {
        None => page_document(title, id, text),
        Some(c) => if core_skips(title, id, text) {
            None
        } else {
            match core_lead(cleaned_wiki(text), c.0 as nat, c.1 as nat) {
                Some(l) => if l.len() > 0 { Some(wiki_doc(title, id, l)) } else { None },
                None => None,
            }
        },
    };
    let skipped = before.core is Some && core_skips(title, id, text);
    let cut_inside = before.core is Some && !core_skips(title, id, text) && core_lead(
        cleaned_wiki(text),
        before.core.unwrap().0 as nat,
        before.core.unwrap().1 as nat,
    ) is None;
    if skipped {
        r is Continue && after.count == before.count
    } else if cut_inside {
        r is CutInsideChar && after.count == before.count
    } else {
        let count = before.count + if doc is Some { 1int } else { 0int };
        let stop = limit_reached(before.limit, count);
        &&& after.count == count
        &&& match r {
            WikiStep::Emit(d) => doc == Some((d.id@, d.text@)) && !stop,
            WikiStep::EmitAndStop(d) => doc == Some((d.id@, d.text@)) && stop,
            WikiStep::Stop => doc is None && stop,
            WikiStep::Continue => doc is None && !stop,
            WikiStep::CutInsideChar => false,
        }
    }
}

proof fn lemma_tag_names_distinct()
    ensures
        "page"@ != "title"@,
        "page"@ != "id"@,
        "page"@ != "text"@,
        "title"@ != "id"@,
        "title"@ != "text"@,
        "id"@ != "text"@,
{
    reveal_strlit("page");
    reveal_strlit("title");
    reveal_strlit("id");
    reveal_strlit("text");
    assert("page"@.len() == 4);
    assert("title"@.len() == 5);
    assert("id"@.len() == 2);
    assert("text"@.len() == 4);
    assert("page"@[0] != "text"@[0]);
}

/// `a == b` for a string slice and a literal.
fn str_eq_lit(a: &str, b: &str) -> (r: bool)
    ensures
        r == (a@ == b@),
{
    crate::chars::str_eq(a, b)
}

} // verus!
