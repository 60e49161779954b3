use search_engine_rust::crawler::{
    clean_text, is_allowed, page_from_fetch, parse_html, parse_robots, plan_fetch, CrawlBudget, DiskFrontier, FetchPlan,
    Frontier, RobotsCache, UrlTask,
};
use search_engine_rust::datasets::{
    apply_header, empty_record, html_to_doc, is_header_end, is_record_start, osm_document, page_body_spaced, page_title,
    split_http_body,
};
use search_engine_rust::processing::Document;
use search_engine_rust::wiki::{clean_wiki_text, is_namespace_title, lead_text, WikiImport, WikiStep, XmlEvent};

fn strings(v: &[&str]) -> Vec<String> {
    v.iter().map(|s| s.to_string()).collect()
}

fn chars(s: &str) -> Vec<char> {
    s.chars().collect()
}

fn task(url: &str, depth: usize) -> UrlTask {
    UrlTask { url: url.to_string(), depth }
}

#[test]
fn wiki_markup_is_stripped() {
    assert_eq!(clean_wiki_text("Hello <ref>x</ref> world"), "Hello x world");
    assert_eq!(clean_wiki_text("[[File:a.png|thumb]] Text [[Category:X]]"), "Text");
    assert_eq!(clean_wiki_text("[[Image:b.jpg]]a"), "a");
    assert_eq!(clean_wiki_text("a\nb"), "a b");
    assert_eq!(clean_wiki_text("{{a {{b}} c}} d"), "d");
    assert_eq!(clean_wiki_text("see [[mammal|animal]] and [[dog]]"), "see animal and dog");
    assert_eq!(clean_wiki_text("x [[unclosed"), "x");
    assert_eq!(clean_wiki_text("a { b"), "a { b");
}

#[test]
fn namespace_titles() {
    assert!(is_namespace_title("Category:Cats"));
    assert!(is_namespace_title("TALK:Foo"));
    assert!(is_namespace_title("special:x"));
    assert!(!is_namespace_title("Cat"));
    assert!(!is_namespace_title("Userx"));
}

#[test]
fn lead_takes_first_sentences_and_drops_quote_marks() {
    let cleaned = chars("The '''cat''' is a ''small'' animal. It purrs. It sleeps.");
    assert_eq!(lead_text(&cleaned, 2, 1000), Some(chars("The cat is a small animal. It purrs.")));
    assert_eq!(lead_text(&cleaned, 0, 1000), Some(chars("The cat is a small animal.")));
    assert_eq!(lead_text(&cleaned, 2, 10), Some(chars("The cat")));
    assert_eq!(lead_text(&chars(""), 1, 10), Some(Vec::new()));
}

#[test]
fn lead_cut_inside_a_character_is_refused() {
    assert_eq!(lead_text(&chars("é. x"), 1, 1), None);
}

fn page_events(title: &str, id: &str, text: &str) -> Vec<XmlEvent> {
    vec![
        XmlEvent::Start("page".to_string()),
        XmlEvent::Start("title".to_string()),
        XmlEvent::Text(Some(title.to_string())),
        XmlEvent::End("title".to_string()),
        XmlEvent::Start("id".to_string()),
        XmlEvent::Text(Some(id.to_string())),
        XmlEvent::End("id".to_string()),
        XmlEvent::Start("revision".to_string()),
        XmlEvent::Start("id".to_string()),
        XmlEvent::Text(Some("999".to_string())),
        XmlEvent::End("id".to_string()),
        XmlEvent::Start("text".to_string()),
        XmlEvent::Text(Some(text.to_string())),
        XmlEvent::End("text".to_string()),
        XmlEvent::End("revision".to_string()),
        XmlEvent::End("page".to_string()),
    ]
}

fn run(imp: &mut WikiImport, events: Vec<XmlEvent>) -> Vec<WikiStep> {
    events.into_iter().map(|e| imp.step(e)).filter(|s| !matches!(s, WikiStep::Continue)).collect()
}

fn doc_of(step: &WikiStep) -> Option<&Document> {
    match step {
        WikiStep::Emit(d) | WikiStep::EmitAndStop(d) => Some(d),
        _ => None,
    }
}

const TEXT: &str = "The '''cat''' is a [[mammal|animal]]. {{Infobox}} It purrs.";

#[test]
fn full_import_emits_title_and_cleaned_text() {
    let mut imp = WikiImport::new(None, None);
    let steps = run(&mut imp, page_events("Cat", "42", TEXT));
    assert_eq!(steps.len(), 1);
    let d = doc_of(&steps[0]).unwrap();
    assert!(matches!(steps[0], WikiStep::Emit(_)));
    assert_eq!(d.id, "wiki:42");
    assert_eq!(d.text, "Cat\nThe '''cat''' is a animal . It purrs.");
    assert_eq!(imp.count, 1);
    assert!(matches!(imp.step(XmlEvent::Eof), WikiStep::Stop));
}

#[test]
fn import_stops_at_limit() {
    let mut imp = WikiImport::new(Some(1), None);
    let steps = run(&mut imp, page_events("Cat", "42", TEXT));
    assert!(matches!(steps[0], WikiStep::EmitAndStop(_)));
}

#[test]
fn page_without_text_is_skipped() {
    let mut imp = WikiImport::new(None, None);
    let steps = run(&mut imp, page_events("Cat", "42", "{{only a template}}"));
    assert!(steps.is_empty());
    assert_eq!(imp.count, 0);
}

#[test]
fn core_import_keeps_the_lead() {
    let mut imp = WikiImport::new(None, Some((1, 100)));
    let steps = run(&mut imp, page_events("Cat", "42", TEXT));
    let d = doc_of(&steps[0]).unwrap();
    assert_eq!(d.text, "Cat\nThe cat is a animal .");
}

#[test]
fn core_import_skips_namespaces_and_redirects() {
    let mut imp = WikiImport::new(None, Some((1, 100)));
    assert!(run(&mut imp, page_events("Category:Cats", "1", TEXT)).is_empty());
    assert!(run(&mut imp, page_events("Kitty", "2", "#REDIRECT [[Cat]]")).is_empty());
    let no_id = vec![
        XmlEvent::Start("page".to_string()),
        XmlEvent::Start("title".to_string()),
        XmlEvent::Text(Some("Kitty".to_string())),
        XmlEvent::End("title".to_string()),
        XmlEvent::Start("text".to_string()),
        XmlEvent::Text(Some(TEXT.to_string())),
        XmlEvent::End("text".to_string()),
        XmlEvent::End("page".to_string()),
    ];
    assert!(run(&mut imp, no_id).is_empty());
    assert_eq!(imp.count, 0);
}

#[test]
fn empty_page_id_takes_the_next_id() {
    let mut imp = WikiImport::new(None, Some((1, 100)));
    let steps = run(&mut imp, page_events("Kitty", "", TEXT));
    assert_eq!(doc_of(&steps[0]).unwrap().id, "wiki:999");
}

#[test]
fn warc_headers_are_read() {
    assert!(is_record_start("WARC/1.0\r\n"));
    assert!(!is_record_start("xWARC/1.0"));
    assert!(is_header_end(" \r\n"));
    assert!(!is_header_end("a\r\n"));
    let mut rec = empty_record();
    apply_header(&mut rec, "WARC-Type: Response\r\n");
    apply_header(&mut rec, "warc-target-uri: http://x/a:b \r\n");
    apply_header(&mut rec, "Content-Length: 12\r\n");
    apply_header(&mut rec, "NoColonLine\r\n");
    apply_header(&mut rec, "Other: v\r\n");
    assert_eq!(rec.warc_type, "response");
    assert_eq!(rec.target_uri, "http://x/a:b");
    assert_eq!(rec.content_length, 12);
    apply_header(&mut rec, "Content-Length: twelve\r\n");
    assert_eq!(rec.content_length, 0);
}

#[test]
fn http_bodies_are_split_from_headers() {
    assert_eq!(
        split_http_body(b"HTTP/1.1 200 OK\r\nA: b\r\n\r\n<html>x</html>", "u"),
        Some(("u".to_string(), "<html>x</html>".to_string()))
    );
    assert_eq!(split_http_body(b"H\n\nbody\n\nmore", ""), Some(("unknown".to_string(), "body\n\nmore".to_string())));
    assert_eq!(split_http_body(b"no separator", "u"), Some(("u".to_string(), "no separator".to_string())));
}

#[test]
fn web_pages_become_documents() {
    let html = "<html><head><title>T</title></head><body><p>Hello   world</p><p>again</p></body></html>";
    let d = html_to_doc("a", html).unwrap();
    assert_eq!(d.id, "web:0cc175b9c0f1b6a831c399e269772661");
    assert_eq!(d.text, "T\nHello world again");
    assert!(html_to_doc("a", "<title>T</title>").is_none());
    assert_eq!(page_title("<title>A</title><p>b</p>"), "A");
    assert_eq!(page_body_spaced("<body><p>x</p><p>y</p></body>"), "x y ");
}

#[test]
fn map_elements_with_names_become_documents() {
    let tags = vec![
        ("amenity".to_string(), "cafe".to_string()),
        ("name".to_string(), "Cafe".to_string()),
        ("addr:street".to_string(), "Main".to_string()),
        ("cuisine".to_string(), "x".to_string()),
    ];
    let d = osm_document("node", 7, &tags).unwrap();
    assert_eq!(d.id, "osm:node:7");
    assert_eq!(d.text, "Cafe amenity=cafe addr:street=Main");
    let d = osm_document("way", -3, &[("name".to_string(), "Road".to_string())]).unwrap();
    assert_eq!((d.id.as_str(), d.text.as_str()), ("osm:way:-3", "Road"));
    assert!(osm_document("node", 1, &[("shop".to_string(), "x".to_string())]).is_none());
}

#[test]
fn crawled_text_is_collapsed() {
    assert_eq!(clean_text("  a \t\n b  "), "a b");
    assert_eq!(clean_text(""), "");
}

#[test]
fn fetched_pages_are_parsed() {
    let html = "<html><head><title>Hi</title></head><body><p>One  two</p><a href=\"/x#f\">l</a><a>no</a><a href=\"http://other.org/y\">m</a></body></html>";
    let (title, text, links) = parse_html(html, "http://ex.com/dir/page");
    assert_eq!(title, "Hi");
    assert_eq!(text, "One two l no m");
    assert_eq!(links, strings(&["http://ex.com/x#f", "http://other.org/y"]));
    let (_, _, none) = parse_html(html, "not a url");
    assert!(none.is_empty());
}

#[test]
fn robots_rules() {
    let rules = parse_robots("User-agent: *\r\nDisallow: /private\nDISALLOW:   /tmp/ \nDisallow:\nAllow: /x");
    assert_eq!(rules, strings(&["/private", "/tmp/"]));
    assert!(!is_allowed(&rules, "/private/a"));
    assert!(!is_allowed(&rules, "/tmp/"));
    assert!(is_allowed(&rules, "/public"));
    assert!(is_allowed(&rules, "/tmp"));
    assert!(!is_allowed(&strings(&["/"]), ""));
}

#[test]
fn robots_cache_per_host() {
    let mut c = RobotsCache::new();
    assert!(c.needs_fetch("h"));
    assert!(c.allowed("h", "/a"));
    c.record("h", Some("Disallow: /a"));
    assert!(!c.needs_fetch("h"));
    assert!(!c.allowed("h", "/a/b"));
    assert!(c.allowed("h", "/b"));
    assert!(c.allowed("g", "/a"));
    c.record("g", None);
    assert!(!c.needs_fetch("g"));
    assert!(c.allowed("g", "/a"));
}

#[test]
fn frontier_queues_each_key_once() {
    let mut f = Frontier::new();
    assert!(f.offer("k1".to_string(), task("u1", 0)));
    assert!(!f.offer("k1".to_string(), task("u1-again", 1)));
    assert!(f.offer("k2".to_string(), task("u2", 1)));
    assert_eq!(f.len(), 2);
    let t = f.next().unwrap();
    assert_eq!((t.url.as_str(), t.depth), ("u1", 0));
    assert_eq!(f.next().unwrap().url, "u2");
    assert!(f.next().is_none());
    assert!(!f.offer("k2".to_string(), task("u2", 1)));
}

#[test]
fn disk_frontier_tracks_seen_urls_and_cursor() {
    let mut f = DiskFrontier::new(strings(&["u1"]), 5);
    assert_eq!(f.cursor(), 5);
    assert!(!f.enqueue("u1"));
    assert!(f.enqueue("u2"));
    assert!(!f.enqueue("u2"));
    assert!(f.dequeue().is_none());
    assert!(f.wants_more());
    f.take_line(Some(task("u2", 1)), 10);
    assert_eq!(f.cursor(), 15);
    f.take_line(None, 3);
    assert_eq!(f.cursor(), 18);
    assert_eq!(f.dequeue().unwrap().url, "u2");
    assert!(f.dequeue().is_none());
}

#[test]
fn frontier_keys_urls_without_fragment() {
    let mut f = Frontier::new();
    assert!(f.add_url("http://Example.com/a#frag", 1));
    assert!(!f.add_url("http://example.com/a#other", 2));
    assert!(!f.add_url("not a url", 0));
    assert_eq!(f.len(), 1);
    let t = f.next().unwrap();
    assert_eq!((t.url.as_str(), t.depth), ("http://example.com/a#frag", 1));
}

#[test]
fn disk_frontier_queues_normalised_urls() {
    let mut f = DiskFrontier::new(Vec::new(), 0);
    let t = f.add_url("http://Example.com/a#f", 3).unwrap();
    assert_eq!((t.url.as_str(), t.depth), ("http://example.com/a", 3));
    assert!(f.add_url("http://example.com/a", 4).is_none());
    assert!(f.add_url("::", 0).is_none());
    assert!(!f.enqueue("http://example.com/a"));
}

#[test]
fn unicode_whitespace_separates_words() {
    assert_eq!(clean_text("a\u{3000}b\u{85}c\u{200B}d\u{A0}\u{2029}e"), "a b c\u{200B}d e");
    assert_eq!(clean_text("\u{1680}x\u{202F}"), "x");
}

#[test]
fn fetch_plans_follow_depth_and_url() {
    match plan_fetch(&task("http://Ex.com/a/b?q=1#f", 2), 2) {
        FetchPlan::Fetch { url, host, path, robots_url } => {
            assert_eq!(url, "http://ex.com/a/b?q=1#f");
            assert_eq!(host, "ex.com");
            assert_eq!(path, "/a/b");
            assert_eq!(robots_url, "http://ex.com/robots.txt");
        }
        FetchPlan::Skip => panic!("expected a fetch"),
    }
    assert!(matches!(plan_fetch(&task("http://ex.com/", 3), 2), FetchPlan::Skip));
    assert!(matches!(plan_fetch(&task("not a url", 0), 2), FetchPlan::Skip));
    assert!(matches!(plan_fetch(&task("mailto:someone@example.com", 0), 2), FetchPlan::Skip));
}

#[test]
fn fetched_pages_become_records_and_links() {
    let html = "<html><head><title>T</title></head><body><p>Hi</p><a href=\"/x\">x</a></body></html>";
    let (page, links, depth) = page_from_fetch("http://ex.com/", html, 1).unwrap();
    assert_eq!(page.url, "http://ex.com/");
    assert_eq!(page.title, "T");
    assert_eq!(page.text, "Hi x");
    assert_eq!(links, strings(&["http://ex.com/x"]));
    assert_eq!(page.links, links);
    assert_eq!(depth, 2);
    assert!(page_from_fetch("http://ex.com/", "<title>T</title>", 1).is_none());
}

#[test]
fn crawl_budget_counts_stored_pages() {
    let mut b = CrawlBudget::new(2);
    assert!(b.goes_on());
    b.page_stored();
    b.page_stored();
    assert_eq!(b.stored(), 2);
    assert!(!b.goes_on());
    assert!(!CrawlBudget::new(0).goes_on());
}
