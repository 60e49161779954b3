//! The decisions of the web crawler: which URLs to visit (each once, up to
//! a depth), what robots.txt forbids, and what text and links a fetched page
//! yields. Fetching itself happens outside.
use vstd::prelude::*;
use std::collections::VecDeque;
use vstd::hash_map::StringHashMap;
use vstd::hash_set::StringHashSet;
use crate::chars::{
    char_is_whitespace, str_chars, str_to_lowercase, string_from_chars, trim, trim_chars,
    unicode_str_lowercase, unicode_whitespace,
};
use crate::text::string_views;
use crate::storage::{page_id, RawPage};
use crate::wiki::{range_starts_with, starts_with};

verus! {

/// Settings of a crawl.
#[derive(Clone, Debug)]
pub struct CrawlConfig {
    pub crawl_limit: usize,
    pub max_depth: usize,
    pub timeout_ms: u64,
    pub user_agent: String,
    pub use_disk_frontier: bool,
    pub frontier_path: Option<String>,
}

/// A URL to visit and its distance from a seed.
#[derive(Debug)]
pub struct UrlTask {
    pub url: String,
    pub depth: usize,
}

// ---------------------------------------------------------------------------
// Page text

/// Left-to-right pass of `clean_text`: every run of whitespace becomes one
/// space; the flag tells whether the output ends in such a space.
pub open spec fn collapse_pass(s: Seq<char>) -> (Seq<char>, bool)
    decreases s.len(),
{
    if s.len() == 0 {
        (Seq::empty(), false)
    } else {
        let p = collapse_pass(s.drop_last());
        let c = s.last();
        if unicode_whitespace(c) {
            if p.1 { p } else { (p.0.push(' '), true) }
        } else {
            (p.0.push(c), false)
        }
    }
}

/// A page's text with every run of whitespace replaced by one space, trimmed.
pub open spec fn cleaned_text(s: Seq<char>) -> Seq<char> {
    trim(collapse_pass(s).0)
}

/// Collapses runs of whitespace into single spaces and trims the result.
pub fn clean_text(text: &str) -> (r: String)
    ensures
        r@ == cleaned_text(text@),
{
    let v = str_chars(text);
    let mut out: Vec<char> = Vec::new();
    let mut prev_space = false;
    let mut i: usize = 0;
    assert(v@.take(0) =~= Seq::<char>::empty());
    while i < v.len()
        invariant
            v@ == text@,
            i <= v.len(),
            (out@, prev_space) == collapse_pass(v@.take(i as int)),
        decreases v.len() - i,
    {
        assert(v@.take(i + 1).drop_last() =~= v@.take(i as int));
        let c = v[i];
        if char_is_whitespace(c) {
            if !prev_space {
                out.push(' ');
                prev_space = true;
            }
        } else {
            out.push(c);
            prev_space = false;
        }
        i += 1;
    }
    assert(v@.take(v@.len() as int) =~= v@);
    let t = trim_chars(&out);
    string_from_chars(&t)
}

// ---------------------------------------------------------------------------
// URLs and HTML

/// The serialization of a URL after parsing, as the `url` crate gives it.
pub uninterp spec fn parsed_url(s: Seq<char>) -> Option<Seq<char>>;

/// The serialization of a parsed URL without its fragment, as the `url`
/// crate gives it.
pub uninterp spec fn url_without_fragment(s: Seq<char>) -> Option<Seq<char>>;

/// The serialization of `href` resolved against the URL `base`, as the `url`
/// crate gives it.
pub uninterp spec fn joined_url(base: Seq<char>, href: Seq<char>) -> Option<Seq<char>>;

/// For each `<a>` element of an HTML document, in document order, the value
/// of its `href` attribute if it has one, as `scraper` finds them.
pub uninterp spec fn html_anchor_hrefs(html: Seq<char>) -> Seq<Option<Seq<char>>>;

/// `url::Url::parse`, serialized with `to_string`: `None` when `s` is not a
/// URL. The contract names the result.
#[verifier::external_body]
fn parse_url(s: &str) -> (r: Option<String>)
    ensures
        match r {
            Some(u) => parsed_url(s@) == Some(u@),
            None => parsed_url(s@) is None,
        },
{
    url::Url::parse(s).ok().map(|u| u.to_string())
}

/// `url::Url::parse`, then `set_fragment(None)` and `to_string`: the URL
/// without its fragment, `None` when `s` is not a URL. The contract names the
/// result.
#[verifier::external_body]
fn normalize_url(s: &str) -> (r: Option<String>)
    ensures
        match r {
            Some(u) => url_without_fragment(s@) == Some(u@),
            None => url_without_fragment(s@) is None,
        },
{
    match url::Url::parse(s) {
        Ok(mut u) => {
            u.set_fragment(None);
            Some(u.to_string())
        },
        Err(_) => None,
    }
}

/// `url::Url::parse(base)` then `join(href)`, serialized with `to_string`:
/// `None` when either fails. The contract names the result.
#[verifier::external_body]
fn join_url(base: &str, href: &str) -> (r: Option<String>)
    ensures
        match r {
            Some(u) => joined_url(base@, href@) == Some(u@),
            None => joined_url(base@, href@) is None,
        },
{
    url::Url::parse(base).ok().and_then(|b| b.join(href).ok()).map(|u| u.to_string())
}

/// The views of optional strings.
pub open spec fn option_views(v: Seq<Option<String>>) -> Seq<Option<Seq<char>>> {
    v.map_values(|o: Option<String>| match o {
        Some(s) => Some(s@),
        None => None,
    })
}

/// `scraper::Html::parse_document`, then for every element that the
/// selector `a` matches, its `href` attribute. The contract names the result.
#[verifier::external_body]
fn anchor_hrefs(html: &str) -> (r: Vec<Option<String>>)
    ensures
        option_views(r@) == html_anchor_hrefs(html@),
{
    let doc = scraper::Html::parse_document(html);
    let sel = scraper::Selector::parse("a").unwrap();
    doc.select(&sel).map(|n| n.value().attr("href").map(|h| h.to_string())).collect()
}

/// The links of a page: every `href` that resolves against the page's URL,
/// resolved, in order.
pub open spec fn resolved_links(base: Seq<char>, hs: Seq<Option<Seq<char>>>) -> Seq<Seq<char>>
    decreases hs.len(),
{
    if hs.len() == 0 {
        Seq::empty()
    } else {
        let prev = resolved_links(base, hs.drop_last());
        match hs.last() {
            Some(h) => match joined_url(base, h) {
                Some(u) => prev.push(u),
                None => prev,
            },
            None => prev,
        }
    }
}

/// What a fetched page yields: its title (the texts of its `<title>` joined
/// by spaces), the cleaned text of its body (empty without a body), and its
/// links resolved against `base`.
pub open spec fn page_parts(html: Seq<char>, base: Seq<char>) -> (Seq<char>, Seq<char>, Seq<Seq<char>>) {
    let title = match crate::datasets::html_title_texts(html) {
        Some(ts) => crate::processing::join_words(ts),
        None => Seq::empty(),
    };
    let body = match crate::datasets::html_body_texts(html) {
        Some(ts) => crate::datasets::spaced(ts),
        None => Seq::empty(),
    };
    (title, cleaned_text(body), resolved_links(base, html_anchor_hrefs(html)))
}

/// The title, cleaned body text and resolved links of a fetched page.
pub fn parse_html(html: &str, base: &str) -> (r: (String, String, Vec<String>))
    ensures
        (r.0@, r.1@, string_views(r.2@)) == page_parts(html@, base@),
{
    let title = crate::datasets::page_title(html);
    let body = crate::datasets::page_body_spaced(html);
    let text = clean_text(body.as_str());
    let hs = anchor_hrefs(html);
    let ghost hv = option_views(hs@);
    let mut links: Vec<String> = Vec::new();
    let mut i: usize = 0;
    assert(hv.take(0) =~= Seq::<Option<Seq<char>>>::empty());
    while i < hs.len()
        invariant
            hv == option_views(hs@),
            i <= hs.len(),
            string_views(links@) == resolved_links(base@, hv.take(i as int)),
        decreases hs.len() - i,
    {
        assert(hv.take(i + 1).drop_last() =~= hv.take(i as int));
        assert(hv.take(i + 1).last() == hv[i as int]);
        match &hs[i] {
            Some(h) => {
                match join_url(base, h.as_str()) {
                    Some(u) => {
                        let ghost before = links@;
                        links.push(u);
                        assert(string_views(links@) =~= string_views(before).push(links@[before.len() as int]@));
                    },
                    None => {},
                }
            },
            None => {},
        }
        i += 1;
    }
    assert(hv.take(hs@.len() as int) =~= hv);
    (title, text, links)
}

// ---------------------------------------------------------------------------
// robots.txt

/// Left-to-right pass of splitting a text into lines: the lines completed
/// so far and the line under construction.
pub open spec fn lines_pass(s: Seq<char>) -> (Seq<Seq<char>>, Seq<char>)
    decreases s.len(),
{
    if s.len() == 0 {
        (Seq::empty(), Seq::empty())
    } else {
        let p = lines_pass(s.drop_last());
        if s.last() == '\n' { (p.0.push(p.1), Seq::empty()) } else { (p.0, p.1.push(s.last())) }
    }
}

/// The lines of a text: what lies between newlines, the last line included.
pub open spec fn text_lines(s: Seq<char>) -> Seq<Seq<char>> {
    lines_pass(s).0.push(lines_pass(s).1)
}

/// The path of a `Disallow:` line (any case, after trimming): what follows
/// its first `:`, trimmed, if not empty.
pub open spec fn disallow_path(line: Seq<char>) -> Option<Seq<char>> {
    let t = trim(line);
    if starts_with(unicode_str_lowercase(t), "disallow:"@) {
        let p = match crate::datasets::first_index(t, ':') {
            Some(i) => trim(t.subrange(i + 1, t.len() as int)),
            None => Seq::empty(),
        };
        if p.len() > 0 { Some(p) } else { None }
    } else {
        None
    }
}

/// The disallowed paths of a robots.txt, in order.
pub open spec fn disallow_rules(lines: Seq<Seq<char>>) -> Seq<Seq<char>>
    decreases lines.len(),
{
    if lines.len() == 0 {
        Seq::empty()
    } else {
        let prev = disallow_rules(lines.drop_last());
        match disallow_path(lines.last()) {
            Some(p) => prev.push(p),
            None => prev,
        }
    }
}

/// The disallowed path of one robots.txt line, if it is a `Disallow:` line
/// with a path.
fn line_rule(line: &Vec<char>) -> (r: Option<String>)
    ensures
        match r {
            Some(p) => disallow_path(line@) == Some(p@),
            None => disallow_path(line@) is None,
        },
{
    let t = trim_chars(line);
    let ts = string_from_chars(&t);
    let lower = str_to_lowercase(ts.as_str());
    let lv = str_chars(lower.as_str());
    let hit = range_starts_with(&lv, 0, lv.len(), "disallow:");
    assert(lv@.subrange(0, lv@.len() as int) =~= lv@);
    if !hit {
        return None;
    }
    let mut i: usize = 0;
    while i < t.len() && t[i] != ':'
        invariant
            i <= t.len(),
            crate::datasets::first_index(t@.take(i as int), ':') is None,
        decreases t.len() - i,
    {
        assert(t@.take(i + 1).drop_last() =~= t@.take(i as int));
        i += 1;
    }
    let p = if i < t.len() {
        proof {
            assert(t@.take(i + 1).drop_last() =~= t@.take(i as int));
            lemma_first_colon(t@, i as int);
        }
        let rest = crate::chars::string_from_range(&t, i + 1, t.len());
        trim_chars(&str_chars(rest.as_str()))
    } else {
        proof {
            assert(t@.take(t@.len() as int) =~= t@);
        }
        Vec::new()
    };
    if p.len() > 0 {
        Some(string_from_chars(&p))
    } else {
        None
    }
}

proof fn lemma_first_colon(t: Seq<char>, i: int)
    requires
        0 <= i < t.len(),
        t[i] == ':',
        crate::datasets::first_index(t.take(i), ':') is None,
    ensures
        crate::datasets::first_index(t, ':') == Some(i),
    decreases t.len() - i,
{
    assert(t.take(i + 1).drop_last() =~= t.take(i));
    assert(crate::datasets::first_index(t.take(i + 1), ':') == Some(i));
    lemma_first_index_extends(t, i + 1, i);
}

proof fn lemma_first_index_extends(t: Seq<char>, k: int, i: int)
    requires
        0 <= k <= t.len(),
        crate::datasets::first_index(t.take(k), ':') == Some(i),
    ensures
        crate::datasets::first_index(t, ':') == Some(i),
    decreases t.len() - k,
{
    if k < t.len() {
        assert(t.take(k + 1).drop_last() =~= t.take(k));
        lemma_first_index_extends(t, k + 1, i);
    } else {
        assert(t.take(k) =~= t);
    }
}

/// The disallowed paths of a robots.txt: the non-empty paths of its
/// `Disallow:` lines, in order.
pub fn parse_robots(text: &str) -> (r: Vec<String>)
    ensures
        string_views(r@) == disallow_rules(text_lines(text@)),
{
    let v = str_chars(text);
    let mut rules: Vec<String> = Vec::new();
    let mut cur: Vec<char> = Vec::new();
    let ghost mut done: Seq<Seq<char>> = Seq::empty();
    let mut i: usize = 0;
    assert(v@.take(0) =~= Seq::<char>::empty());
    while i < v.len()
        invariant
            v@ == text@,
            i <= v.len(),
            (done, cur@) == lines_pass(v@.take(i as int)),
            string_views(rules@) == disallow_rules(done),
        decreases v.len() - i,
    {
        assert(v@.take(i + 1).drop_last() =~= v@.take(i as int));
        if v[i] == '\n' {
            match line_rule(&cur) {
                Some(p) => {
                    let ghost before = rules@;
                    rules.push(p);
                    assert(string_views(rules@) =~= string_views(before).push(rules@[before.len() as int]@));
                },
                None => {},
            }
            proof {
                assert(done.push(cur@).drop_last() =~= done);
                done = done.push(cur@);
            }
            cur = Vec::new();
        } else {
            cur.push(v[i]);
        }
        i += 1;
    }
    assert(v@.take(v@.len() as int) =~= v@);
    match line_rule(&cur) {
        Some(p) => {
            let ghost before = rules@;
            rules.push(p);
            assert(string_views(rules@) =~= string_views(before).push(rules@[before.len() as int]@));
        },
        None => {},
    }
    assert(done.push(cur@).drop_last() =~= done);
    rules
}

/// Whether robots rules allow `path`: no rule is `/`, and no non-empty rule
/// starts the path.
pub open spec fn path_allowed(rules: Seq<Seq<char>>, path: Seq<char>) -> bool {
    forall|k: int| 0 <= k < rules.len() ==> !(#[trigger] rules[k] == "/"@ || (rules[k].len() > 0 && starts_with(path, rules[k])))
}

/// Whether robots rules allow `path`.
pub fn is_allowed(rules: &[String], path: &str) -> (r: bool)
    ensures
        r == path_allowed(string_views(rules@), path@),
{
    let pv = str_chars(path);
    proof {
        reveal_strlit("/");
    }
    let mut k: usize = 0;
    while k < rules.len()
        invariant
            pv@ == path@,
            k <= rules.len(),
            forall|j: int| 0 <= j < k ==> !(#[trigger] string_views(rules@)[j] == "/"@ || (string_views(rules@)[j].len() > 0
                && starts_with(path@, string_views(rules@)[j]))),
        decreases rules.len() - k,
    {
        let rv = str_chars(rules[k].as_str());
        let slash = crate::chars::str_eq(rules[k].as_str(), "/");
        let prefix = rv.len() > 0 && rv.len() <= pv.len() && crate::wiki::range_starts_with(&pv, 0, pv.len(), rules[k].as_str());
        proof {
            assert(pv@.subrange(0, pv@.len() as int) =~= pv@);
            assert(string_views(rules@)[k as int] == rules@[k as int]@);
        }
        if slash || prefix {
            return false;
        }
        k += 1;
    }
    true
}

/// Cached robots rules per host.
pub struct RobotsCache {
    rules: StringHashMap<Vec<String>>,
}

impl RobotsCache {
    /// The rules cached for `host`, if any.
    pub closed spec fn rules_of(&self, host: Seq<char>) -> Option<Seq<Seq<char>>> {
        if self.rules@.contains_key(host) { Some(string_views(self.rules@[host]@)) } else { None }
    }

    /// A cache with no host.
    pub fn new() -> (r: Self)
        ensures
            forall|h: Seq<char>| #[trigger] r.rules_of(h) is None,
    {
        RobotsCache { rules: StringHashMap::new() }
    }

    /// Whether the robots.txt of `host` still has to be fetched.
    pub fn needs_fetch(&self, host: &str) -> (r: bool)
        ensures
            r == self.rules_of(host@) is None,
    {
        !self.rules.contains_key(host)
    }

    /// Caches the rules of `host` from its robots.txt, or no rule when it could
    /// not be fetched.
    pub fn record(&mut self, host: &str, robots: Option<&str>)
        ensures
            final(self).rules_of(host@) == Some(match robots {
                Some(t) => disallow_rules(text_lines(t@)),
                None => Seq::<Seq<char>>::empty(),
            }),
            forall|h: Seq<char>| h != host@ ==> #[trigger] final(self).rules_of(h) == old(self).rules_of(h),
    {
        let rules = match robots {
            Some(t) => parse_robots(t),
            None => Vec::new(),
        };
        proof {
            if robots is None {
                assert(string_views(rules@) =~= Seq::<Seq<char>>::empty());
            }
        }
        self.rules.insert(String::from_str(host), rules);
    }

    /// Whether the cached rules of `host` allow `path`; a host with no cached
    /// rules is allowed.
    pub fn allowed(&self, host: &str, path: &str) -> (r: bool)
        ensures
            r == match self.rules_of(host@) {
                Some(rs) => path_allowed(rs, path@),
                None => true,
            },
    {
        match self.rules.get(host) {
            Some(rs) => is_allowed(rs.as_slice(), path),
            None => true,
        }
    }
}

// ---------------------------------------------------------------------------
// One crawl step

/// The scheme of a URL after parsing, as the `url` crate gives it.
pub uninterp spec fn url_scheme(s: Seq<char>) -> Option<Seq<char>>;

/// The host of a URL after parsing, if it has one, as the `url` crate gives it.
pub uninterp spec fn url_host(s: Seq<char>) -> Option<Option<Seq<char>>>;

/// The path of a URL after parsing, as the `url` crate gives it.
pub uninterp spec fn url_path(s: Seq<char>) -> Option<Seq<char>>;

/// `url::Url::parse`, then `scheme`: `None` when `s` is not a URL. The
/// contract names the result.
#[verifier::external_body]
fn parse_scheme(s: &str) -> (r: Option<String>)
    ensures
        match r {
            Some(x) => url_scheme(s@) == Some(x@),
            None => url_scheme(s@) is None,
        },
{
    url::Url::parse(s).ok().map(|u| u.scheme().to_string())
}

/// `url::Url::parse`, then `host_str`: `None` when `s` is not a URL. The
/// contract names the result.
#[verifier::external_body]
fn parse_host(s: &str) -> (r: Option<Option<String>>)
    ensures
        match r {
            Some(Some(x)) => url_host(s@) == Some(Some(x@)),
            Some(None) => url_host(s@) == Some(None::<Seq<char>>),
            None => url_host(s@) is None,
        },
{
    url::Url::parse(s).ok().map(|u| u.host_str().map(|h| h.to_string()))
}

/// `url::Url::parse`, then `path`: `None` when `s` is not a URL. The
/// contract names the result.
#[verifier::external_body]
fn parse_path(s: &str) -> (r: Option<String>)
    ensures
        match r {
            Some(x) => url_path(s@) == Some(x@),
            None => url_path(s@) is None,
        },
{
    url::Url::parse(s).ok().map(|u| u.path().to_string())
}

/// What to do with a task taken from the frontier.
#[derive(Debug)]
pub enum FetchPlan {
    /// Drop the task: too deep, not a URL, or a URL without a host.
    Skip,
    /// Fetch `url` once the robots rules of `host` (read from `robots_url`)
    /// allow `path`.
    Fetch { url: String, host: String, path: String, robots_url: String },
}

/// Decides what to do with a task: tasks deeper than `max_depth`, URLs that
/// do not parse and URLs without a host are skipped; the others are fetched
/// at their parsed URL, after checking the robots rules of their host, read
/// from `<scheme>://<host>/robots.txt`, for their path.
pub fn plan_fetch(task: &UrlTask, max_depth: usize) -> (r: FetchPlan)
    ensures
        task.depth > max_depth ==> r is Skip,
        task.depth <= max_depth ==> match (parsed_url(task.url@), url_scheme(task.url@), url_host(task.url@), url_path(task.url@)) {
            (Some(u), Some(sch), Some(Some(h)), Some(p)) => match r {
                FetchPlan::Fetch { url, host, path, robots_url } => url@ == u && host@ == h && path@ == p
                    && robots_url@ == sch + "://"@ + h + "/robots.txt"@,
                FetchPlan::Skip => false,
            },
            _ => r is Skip,
        },
{
    if task.depth > max_depth {
        return FetchPlan::Skip;
    }
    let u = parse_url(task.url.as_str());
    let sch = parse_scheme(task.url.as_str());
    let h = parse_host(task.url.as_str());
    let p = parse_path(task.url.as_str());
    match (u, sch, h, p) {
        (Some(u), Some(sch), Some(Some(h)), Some(p)) => {
            let mut r = str_chars(sch.as_str());
            let sep = str_chars("://");
            crate::chars::extend_chars(&mut r, &sep);
            let hv = str_chars(h.as_str());
            crate::chars::extend_chars(&mut r, &hv);
            let tail = str_chars("/robots.txt");
            crate::chars::extend_chars(&mut r, &tail);
            FetchPlan::Fetch { url: u, host: h, path: p, robots_url: string_from_chars(&r) }
        },
        _ => FetchPlan::Skip,
    }
}

/// What a fetched page yields, when its body has text: the page record to
/// store, the links to offer and their depth, one more than the page's.
pub fn page_from_fetch(url: &str, html: &str, depth: usize) -> (r: Option<(RawPage, Vec<String>, usize)>)
    requires
        depth < usize::MAX,
    ensures
        match r {
            Some((page, links, d)) => {
                let parts = page_parts(html@, url@);
                &&& parts.1.len() > 0
                &&& page.id@ == page_id(url@)
                &&& page.url@ == url@
                &&& page.title@ == parts.0
                &&& page.text@ == parts.1
                &&& string_views(page.links@) == parts.2
                &&& string_views(links@) == parts.2
                &&& d == depth + 1
            },
            None => page_parts(html@, url@).1.len() == 0,
        },
{
    let (title, text, links) = parse_html(html, url);
    if str_chars(text.as_str()).len() == 0 {
        return None;
    }
    let page = RawPage::new(url, title.as_str(), text.as_str(), links.as_slice());
    Some((page, links, depth + 1))
}

/// How many pages a crawl has stored, out of how many it may store.
pub struct CrawlBudget {
    stored: usize,
    limit: usize,
}

impl CrawlBudget {
    /// Pages stored so far.
    pub closed spec fn stored_spec(&self) -> usize {
        self.stored
    }

    /// Pages the crawl may store.
    pub closed spec fn limit_spec(&self) -> usize {
        self.limit
    }

    /// A crawl that may store `limit` pages and has stored none.
    pub fn new(limit: usize) -> (r: Self)
        ensures
            r.stored_spec() == 0,
            r.limit_spec() == limit,
    {
        CrawlBudget { stored: 0, limit }
    }

    /// Whether the crawl goes on: fewer pages stored than the limit.
    pub fn goes_on(&self) -> (r: bool)
        ensures
            r == (self.stored_spec() < self.limit_spec()),
    {
        self.stored < self.limit
    }

    /// Counts one more stored page.
    pub fn page_stored(&mut self)
        requires
            old(self).stored_spec() < old(self).limit_spec(),
        ensures
            final(self).stored_spec() == old(self).stored_spec() + 1,
            final(self).limit_spec() == old(self).limit_spec(),
    {
        self.stored = self.stored + 1;
    }

    /// Pages stored so far.
    pub fn stored(&self) -> (r: usize)
        ensures
            r == self.stored_spec(),
    {
        self.stored
    }
}

// ---------------------------------------------------------------------------
// Frontier

/// The URLs waiting to be crawled, each taken once: a URL is queued only
/// the first time its key is seen.
pub struct Frontier {
    seen: StringHashSet,
    queue: VecDeque<UrlTask>,
}

impl Frontier {
    /// The keys of the URLs seen so far.
    pub closed spec fn seen_spec(&self) -> Set<Seq<char>> {
        self.seen@
    }

    /// The tasks waiting, in order.
    pub closed spec fn queue_spec(&self) -> Seq<UrlTask> {
        self.queue@
    }

    /// A frontier with nothing seen and nothing waiting.
    pub fn new() -> (r: Self)
        ensures
            r.seen_spec() == Set::<Seq<char>>::empty(),
            r.queue_spec() == Seq::<UrlTask>::empty(),
    {
        Frontier { seen: StringHashSet::new(), queue: VecDeque::new() }
    }

    /// Queues `task` if `key` was not seen before; returns whether it did.
    pub fn offer(&mut self, key: String, task: UrlTask) -> (r: bool)
        ensures
            r == !old(self).seen_spec().contains(key@),
            final(self).seen_spec() == old(self).seen_spec().insert(key@),
            final(self).queue_spec() == if r { old(self).queue_spec().push(task) } else { old(self).queue_spec() },
    {
        let fresh = self.seen.insert(key);
        if fresh {
            self.queue.push_back(task);
        }
        fresh
    }

    /// The next task, if any.
    pub fn next(&mut self) -> (r: Option<UrlTask>)
        ensures
            final(self).seen_spec() == old(self).seen_spec(),
            match r {
                Some(t) => old(self).queue_spec().len() > 0 && t == old(self).queue_spec()[0]
                    && final(self).queue_spec() == old(self).queue_spec().drop_first(),
                None => old(self).queue_spec().len() == 0 && final(self).queue_spec() == old(self).queue_spec(),
            },
    {
        self.queue.pop_front()
    }

    /// The number of tasks waiting.
    pub fn len(&self) -> (r: usize)
        ensures
            r == self.queue_spec().len(),
    {
        self.queue.len()
    }

    /// Offers a URL found at `depth`: when it parses, it is keyed by its form
    /// without fragment and, if that key is new, queued as the parser
    /// serializes it. Returns whether it was queued.
    pub fn add_url(&mut self, url: &str, depth: usize) -> (r: bool)
        ensures
            match (parsed_url(url@), url_without_fragment(url@)) {
                (Some(u), Some(n)) => {
                    &&& r == !old(self).seen_spec().contains(n)
                    &&& final(self).seen_spec() == old(self).seen_spec().insert(n)
                    &&& r ==> final(self).queue_spec().len() == old(self).queue_spec().len() + 1
                        && final(self).queue_spec().drop_last() == old(self).queue_spec()
                        && final(self).queue_spec().last().url@ == u
                        && final(self).queue_spec().last().depth == depth
                    &&& !r ==> final(self).queue_spec() == old(self).queue_spec()
                },
                _ => !r && final(self).seen_spec() == old(self).seen_spec()
                    && final(self).queue_spec() == old(self).queue_spec(),
            },
    {
        match parse_url(url) {
            Some(u) => match normalize_url(url) {
                Some(n) => {
                    let fresh = self.offer(n, UrlTask { url: u, depth });
                    proof {
                        if fresh {
                            assert(self.queue_spec().drop_last() =~= old(self).queue_spec());
                        }
                    }
                    fresh
                },
                None => false,
            },
            None => false,
        }
    }
}

/// A URL is queued at most once: offering a key that was already seen
/// changes nothing and reports it.
pub proof fn lemma_offered_once(seen: Set<Seq<char>>, key: Seq<char>)
    ensures
        seen.insert(key).contains(key),
        seen.insert(key).insert(key) == seen.insert(key),
{
    assert(seen.insert(key).insert(key) =~= seen.insert(key));
}

/// The frontier of a crawl that keeps its queue on disk: the URLs seen so
/// far, the tasks read back from the queue file, and how far into that file
/// reading has got.
pub struct DiskFrontier {
    seen: StringHashSet,
    queue: VecDeque<UrlTask>,
    cursor: u64,
}

impl DiskFrontier {
    /// The keys of the URLs seen so far.
    pub closed spec fn seen_spec(&self) -> Set<Seq<char>> {
        self.seen@
    }

    /// The tasks read back and waiting, in order.
    pub closed spec fn queue_spec(&self) -> Seq<UrlTask> {
        self.queue@
    }

    /// How far into the queue file reading has got, in bytes.
    pub closed spec fn cursor_spec(&self) -> u64 {
        self.cursor
    }

    /// How far into the queue file reading has got, in bytes.
    pub fn cursor(&self) -> (r: u64)
        ensures
            r == self.cursor_spec(),
    {
        self.cursor
    }

    /// The frontier of a crawl resumed with the URLs `seen` and the queue
    /// file read up to `cursor`.
    pub fn new(seen: Vec<String>, cursor: u64) -> (r: Self)
        ensures
            r.seen_spec() == crate::engine::id_set(seen@),
            r.queue_spec() == Seq::<UrlTask>::empty(),
            r.cursor_spec() == cursor,
    {
        let mut s = StringHashSet::new();
        let mut i: usize = 0;
        while i < seen.len()
            invariant
                i <= seen.len(),
                s@ == crate::engine::id_set(seen@.take(i as int)),
            decreases seen.len() - i,
        {
            s.insert(seen[i].clone());
            proof {
                let t = seen@.take(i + 1);
                assert forall|x: Seq<char>| crate::engine::id_set(t).contains(x) <==> crate::engine::id_set(seen@.take(i as int)).insert(
                    seen@[i as int]@,
                ).contains(x) by {
                    if crate::engine::id_set(t).contains(x) {
                        let k = choose|k: int| 0 <= k < t.len() && #[trigger] t[k]@ == x;
                        if k < i {
                            assert(seen@.take(i as int)[k] == t[k]);
                        }
                    }
                    if crate::engine::id_set(seen@.take(i as int)).contains(x) {
                        let k = choose|k: int| 0 <= k < i && #[trigger] seen@.take(i as int)[k]@ == x;
                        assert(t[k] == seen@.take(i as int)[k]);
                    }
                    if x == seen@[i as int]@ {
                        assert(t[i as int]@ == x);
                    }
                }
                assert(crate::engine::id_set(t) =~= crate::engine::id_set(seen@.take(i as int)).insert(seen@[i as int]@));
            }
            i += 1;
        }
        assert(seen@.take(seen@.len() as int) =~= seen@);
        assert(crate::engine::id_set(seen@.take(0)) =~= Set::<Seq<char>>::empty());
        DiskFrontier { seen: s, queue: VecDeque::new(), cursor }
    }

    /// Records `url` as seen; returns whether it is new, in which case the
    /// task and the URL are to be appended to the queue and seen files.
    pub fn enqueue(&mut self, url: &str) -> (r: bool)
        ensures
            r == !old(self).seen_spec().contains(url@),
            final(self).seen_spec() == old(self).seen_spec().insert(url@),
            final(self).queue_spec() == old(self).queue_spec(),
            final(self).cursor_spec() == old(self).cursor_spec(),
    {
        self.seen.insert(String::from_str(url))
    }

    /// Offers a URL found at `depth`: when it parses, its form without
    /// fragment is recorded as seen and, if it is new, returned as the task to
    /// append to the queue file.
    pub fn add_url(&mut self, url: &str, depth: usize) -> (r: Option<UrlTask>)
        ensures
            final(self).queue_spec() == old(self).queue_spec(),
            final(self).cursor_spec() == old(self).cursor_spec(),
            match (parsed_url(url@), url_without_fragment(url@)) {
                (Some(_), Some(n)) => {
                    &&& final(self).seen_spec() == old(self).seen_spec().insert(n)
                    &&& (r is Some) == !old(self).seen_spec().contains(n)
                    &&& r matches Some(t) ==> t.url@ == n && t.depth == depth
                },
                _ => r is None && final(self).seen_spec() == old(self).seen_spec(),
            },
    {
        match parse_url(url) {
            Some(_) => match normalize_url(url) {
                Some(n) => {
                    if self.enqueue(n.as_str()) {
                        Some(UrlTask { url: n, depth })
                    } else {
                        None
                    }
                },
                None => None,
            },
            None => None,
        }
    }

    /// The next task read back, if any; when there is none the queue file is
    /// to be read further.
    pub fn dequeue(&mut self) -> (r: Option<UrlTask>)
        ensures
            final(self).seen_spec() == old(self).seen_spec(),
            final(self).cursor_spec() == old(self).cursor_spec(),
            match r {
                Some(t) => old(self).queue_spec().len() > 0 && t == old(self).queue_spec()[0]
                    && final(self).queue_spec() == old(self).queue_spec().drop_first(),
                None => old(self).queue_spec().len() == 0 && final(self).queue_spec() == old(self).queue_spec(),
            },
    {
        self.queue.pop_front()
    }

    /// Whether more of the queue file is to be read: fewer than 1000 tasks
    /// are waiting.
    pub fn wants_more(&self) -> (r: bool)
        ensures
            r == (self.queue_spec().len() < 1000),
    {
        self.queue.len() < 1000
    }

    /// Takes one line read from the queue file: `bytes` bytes, and the task
    /// it holds if it parsed.
    pub fn take_line(&mut self, task: Option<UrlTask>, bytes: u64)
        requires
            old(self).cursor_spec() + bytes <= u64::MAX,
        ensures
            final(self).cursor_spec() == old(self).cursor_spec() + bytes,
            final(self).seen_spec() == old(self).seen_spec(),
            final(self).queue_spec() == match task {
                Some(t) => old(self).queue_spec().push(t),
                None => old(self).queue_spec(),
            },
    {
        match task {
            Some(t) => self.queue.push_back(t),
            None => {},
        }
        self.cursor = self.cursor + bytes;
    }
}

} // verus!
