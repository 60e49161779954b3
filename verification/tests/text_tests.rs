use search_engine_rust::numfmt::{parse_usize, push_decimal, push_decimal_i64, push_decimal_padded, push_hex};
use search_engine_rust::text::{
    detect_language, expand_tokens, find_chars, highlight_terms, is_stopword, is_stopword_lang,
    make_snippet, make_snippet_checked, normalize_text, process_query, split_sentences, stem_token,
    tokenize, tokenize_with_lang, tokenize_with_positions, Lang,
};

fn strings(v: &[&str]) -> Vec<String> {
    v.iter().map(|s| s.to_string()).collect()
}

#[test]
fn normalize_lowercases_and_collapses() {
    assert_eq!(normalize_text("Hello,   World!"), "hello world");
}

#[test]
fn normalize_trims_and_keeps_unicode_letters() {
    assert_eq!(normalize_text("  ¡Él ÑAND-Ü!  "), "él ñand ü");
    assert_eq!(normalize_text("...,"), "");
    assert_eq!(normalize_text(""), "");
}

#[test]
fn tokenize_drops_stopwords() {
    let t = tokenize("the cats are running");
    assert!(!t.contains(&"the".to_string()));
    assert_eq!(t, strings(&["cat", "runn"]));
}

#[test]
fn stem_strips_first_matching_suffix() {
    assert_eq!(stem_token("walked"), "walk");
    assert_eq!(stem_token("quickly"), "quick");
    assert_eq!(stem_token("reportedly"), "report");
    assert_eq!(stem_token("is"), "is");
    assert_eq!(stem_token("bus"), "bus");
    assert_eq!(stem_token("buses"), "bus");
    assert_eq!(stem_token("niños"), "niños");
}

#[test]
fn stopwords_by_language() {
    assert!(is_stopword("the"));
    assert!(!is_stopword("cat"));
    assert!(is_stopword_lang("de", Lang::Es));
    assert!(!is_stopword_lang("de", Lang::En));
    assert!(is_stopword_lang("और", Lang::Hi));
    assert!(!is_stopword_lang("the", Lang::Other));
}

#[test]
fn tokenize_with_lang_uses_that_language() {
    assert_eq!(tokenize_with_lang("el gato de la casa", Lang::Es), strings(&["gato", "casa"]));
    assert_eq!(tokenize_with_lang("the cat", Lang::Other), strings(&["the", "cat"]));
}

#[test]
fn positions_count_all_words() {
    let (toks, pos) = tokenize_with_positions("the cat and the dog cat");
    assert_eq!(toks, strings(&["cat", "dog", "cat"]));
    assert_eq!(pos.get("cat"), Some(vec![1, 5]));
    assert_eq!(pos.get("dog"), Some(vec![4]));
    assert_eq!(pos.get("the"), None);
    assert!(!pos.is_empty());
}

#[test]
fn expand_adds_synonyms() {
    assert_eq!(
        expand_tokens(&strings(&["bm25", "cat"]), Lang::En),
        strings(&["bm25", "ranking", "tfidf", "tf-idf", "cat"])
    );
    assert_eq!(expand_tokens(&strings(&["buscar"]), Lang::Es), strings(&["buscar", "busqueda", "recuperar"]));
    assert_eq!(expand_tokens(&strings(&["bm25"]), Lang::Other), strings(&["bm25"]));
}

#[test]
fn process_query_expands_english_synonyms() {
    assert_eq!(
        process_query("Vector search"),
        strings(&["vector", "embedding", "semantic", "search", "retrieve", "retrieval"])
    );
}

#[test]
fn sentences_split_at_terminators() {
    assert_eq!(
        split_sentences("Hello world. How are you?  Fine"),
        strings(&["Hello world.", "How are you?", "Fine"])
    );
    assert_eq!(split_sentences(" . "), strings(&["."]));
    assert!(split_sentences("   ").is_empty());
}

#[test]
fn language_detection() {
    assert_eq!(detect_language("hola el mundo"), Lang::Es);
    assert_eq!(detect_language("Y LA casa"), Lang::Es);
    assert_eq!(detect_language("नमस्ते दुनिया"), Lang::Hi);
    assert_eq!(detect_language("привет"), Lang::Other);
    assert_eq!(detect_language("hello world"), Lang::En);
}

#[test]
fn find_first_occurrence() {
    let hay: Vec<char> = "abcabc".chars().collect();
    let needle: Vec<char> = "ca".chars().collect();
    assert_eq!(find_chars(&hay, &needle), Some(2));
    let missing: Vec<char> = "x".chars().collect();
    assert_eq!(find_chars(&hay, &missing), None);
    assert_eq!(find_chars(&hay, &Vec::new()), Some(0));
}

#[test]
fn highlight_marks_matching_words() {
    assert_eq!(highlight_terms("The Cat, sat", &strings(&["cat"])), "The [Cat,] sat");
    assert_eq!(highlight_terms("  ", &strings(&["cat"])), "");
}

#[test]
fn snippet_of_short_text_is_highlighted_whole() {
    assert_eq!(make_snippet("short text", &strings(&["text"]), 100), "short [text]");
}

#[test]
fn snippet_of_long_text_starts_near_match() {
    let text = "aaaa bbbb cccc dddd";
    assert_eq!(make_snippet(text, &strings(&["cccc"]), 9), "aaaa bbbb");
    let long = format!("{} target rest", "x".repeat(50));
    assert_eq!(make_snippet(&long, &strings(&["target"]), 50), format!("{} [target] res", "x".repeat(39)));
    assert_eq!(make_snippet_checked(text, &strings(&["cccc"]), 9), Some("aaaa bbbb".to_string()));
}

#[test]
fn snippet_checked_refuses_cut_inside_char() {
    assert_eq!(make_snippet_checked("ééé", &strings(&["x"]), 3), None);
}

#[test]
fn number_formatting() {
    let mut out = Vec::new();
    push_decimal(&mut out, 1203);
    assert_eq!(out.iter().collect::<String>(), "1203");
    let mut out = Vec::new();
    push_decimal_padded(&mut out, 7, 4);
    assert_eq!(out.iter().collect::<String>(), "0007");
    let mut out = Vec::new();
    push_decimal_padded(&mut out, 12345, 4);
    assert_eq!(out.iter().collect::<String>(), "12345");
    let mut out = Vec::new();
    push_decimal_i64(&mut out, i64::MIN);
    assert_eq!(out.iter().collect::<String>(), "-9223372036854775808");
    let mut out = Vec::new();
    push_hex(&mut out, &[0xab, 0x01, 0x00]);
    assert_eq!(out.iter().collect::<String>(), "ab0100");
}

#[test]
fn usize_parsing_follows_std() {
    assert_eq!(parse_usize("42"), Some(42));
    assert_eq!(parse_usize("+5"), Some(5));
    assert_eq!(parse_usize(""), None);
    assert_eq!(parse_usize("+"), None);
    assert_eq!(parse_usize("-1"), None);
    assert_eq!(parse_usize("4a"), None);
    assert_eq!(parse_usize(" 4"), None);
    assert_eq!(parse_usize("007"), Some(7));
    let too_big = format!("{}0", usize::MAX);
    assert_eq!(parse_usize(&too_big), None);
    assert_eq!(parse_usize(&usize::MAX.to_string()), Some(usize::MAX));
}
