use search_engine_rust::correction::{build_term_buckets, levenshtein, suggest_correction, update_term_buckets, TermBuckets};
use search_engine_rust::postings::{encode_postings_bytes, layout_postings, postings_from_raw, TermMeta};
use search_engine_rust::processing::{build_chunk, Chunk};
use search_engine_rust::term_index::TermIndex;

fn chunk(id: &str, text: &str) -> Chunk {
    build_chunk(id.to_string(), text.to_string())
}

fn strings(v: &[&str]) -> Vec<String> {
    v.iter().map(|s| s.to_string()).collect()
}

#[test]
fn levenshtein_values() {
    assert_eq!(levenshtein("kitten", "sitting"), 3);
    assert_eq!(levenshtein("", "abc"), 3);
    assert_eq!(levenshtein("abc", ""), 3);
    assert_eq!(levenshtein("same", "same"), 0);
    assert_eq!(levenshtein("flaw", "lawn"), 2);
}

#[test]
fn levenshtein_counts_columns_by_bytes_of_second_word() {
    // The table has one column per byte of the second word but is filled one
    // character at a time, so the last column of a multi-byte word stays 0.
    assert_eq!(levenshtein("a", "é"), 0);
    assert_eq!(levenshtein("", "é"), 2);
}

#[test]
fn suggestion_is_the_nearest_term_with_same_initial() {
    let b = build_term_buckets(&strings(&["search", "seared", "banana"]));
    assert_eq!(suggest_correction("serch", &b), Some("search".to_string()));
    assert_eq!(suggest_correction("banan", &b), Some("banana".to_string()));
    assert_eq!(suggest_correction("search", &b), Some("search".to_string()));
}

#[test]
fn no_suggestion_for_short_or_far_terms() {
    let b = build_term_buckets(&strings(&["search", "cat"]));
    assert_eq!(suggest_correction("ca", &b), None);
    assert_eq!(suggest_correction("xyzzy", &b), None);
    assert_eq!(suggest_correction("sxxxxx", &b), None);
    assert_eq!(suggest_correction("search", &TermBuckets::new()), None);
}

#[test]
fn updated_buckets_hold_new_tokens() {
    let mut b = build_term_buckets(&strings(&["dog"]));
    update_term_buckets(&mut b, &[chunk("c", "kitten kitten")]);
    assert_eq!(suggest_correction("kiten", &b), Some("kitten".to_string()));
}

#[test]
fn postings_bytes_are_little_endian_pairs() {
    let bytes = encode_postings_bytes(&[(1, 2), (0x01020304, 0)]);
    assert_eq!(bytes, vec![1, 0, 0, 0, 2, 0, 0, 0, 4, 3, 2, 1, 0, 0, 0, 0]);
    assert_eq!(postings_from_raw(&bytes, 0, 2), vec![(1, 2), (0x01020304, 0)]);
    assert_eq!(postings_from_raw(&bytes, 8, 1), vec![(0x01020304, 0)]);
    assert_eq!(postings_from_raw(&bytes, 8, 2), Vec::new());
    assert_eq!(postings_from_raw(&bytes, u64::MAX, 1), Vec::new());
}

#[test]
fn layout_places_lists_one_after_another() {
    let lists = vec![vec![(0, 1)], vec![], vec![(2, 3), (4, 5)]];
    let (metas, bytes) = layout_postings(&lists);
    let view: Vec<(u32, u64, u32)> = metas.iter().map(|m: &TermMeta| (m.df, m.offset, m.len)).collect();
    assert_eq!(view, vec![(1, 0, 1), (0, 8, 0), (2, 8, 2)]);
    assert_eq!(bytes.len(), 24);
    for (m, l) in metas.iter().zip(lists.iter()) {
        assert_eq!(&postings_from_raw(&bytes, m.offset, m.len), l);
    }
}

fn sample() -> Vec<Chunk> {
    vec![chunk("a", "cat dog cat"), chunk("b", "dog bird")]
}

#[test]
fn built_index_counts_terms_per_document() {
    let ix = TermIndex::build(&sample());
    assert_eq!(ix.collect_postings("cat", &[]), vec![(0, 2)]);
    assert_eq!(ix.collect_postings("dog", &[]), vec![(0, 1), (1, 1)]);
    assert_eq!(ix.collect_postings("bird", &[]), vec![(1, 1)]);
    assert_eq!(ix.collect_postings("fish", &[]), Vec::new());
    assert!(ix.has_term("cat"));
    assert!(!ix.has_term("fish"));
    assert_eq!(ix.doc_lens(), &vec![3, 2]);
    assert_eq!(ix.total_len(), 5);
    let mut terms = ix.terms().clone();
    terms.sort();
    assert_eq!(terms, strings(&["bird", "cat", "dog"]));
    let e = ix.entry_of("dog").unwrap();
    assert_eq!(e.df, 2);
    assert_eq!(e.len, 2);
    assert_eq!(e.postings, Some(vec![(0, 1), (1, 1)]));
    assert!(ix.added_postings("dog").is_empty());
}

#[test]
fn saved_index_reads_back_its_lists() {
    let ix = TermIndex::build(&sample());
    let (metas, bytes) = ix.persist_layout(&[]);
    assert_eq!(metas.len(), 3);
    let saved = TermIndex::from_persist(metas.clone(), vec![3, 2], 5);
    for t in ["cat", "dog", "bird"] {
        assert_eq!(saved.collect_postings(t, &bytes), ix.collect_postings(t, &[]));
        assert_eq!(saved.entry_of(t).unwrap().postings, None);
    }
    let mut loaded = TermIndex::from_persist(metas, vec![3, 2], 5);
    loaded.load_postings(&bytes);
    for t in ["cat", "dog", "bird"] {
        assert_eq!(loaded.collect_postings(t, &[]), ix.collect_postings(t, &[]));
    }
    let m = saved.term_metas();
    let dog = m.iter().find(|(t, _)| t == "dog").unwrap();
    assert_eq!((dog.1.df, dog.1.len), (2, 2));
}

#[test]
fn postings_added_to_a_saved_index_come_after_its_lists() {
    let ix = TermIndex::build(&sample());
    let (metas, bytes) = ix.persist_layout(&[]);
    let mut saved = TermIndex::from_persist(metas, vec![3, 2], 5);
    assert!(saved.add_chunks_checked(&[chunk("c", "dog fish fish")]));
    assert_eq!(saved.collect_postings("dog", &bytes), vec![(0, 1), (1, 1), (2, 1)]);
    assert_eq!(saved.added_postings("dog"), &[(2, 1)]);
    assert_eq!(saved.collect_postings("fish", &bytes), vec![(2, 2)]);
    assert_eq!(saved.doc_lens(), &vec![3, 2, 3]);
    assert_eq!(saved.total_len(), 8);
}

#[test]
fn adding_to_a_built_index_extends_lists_in_memory() {
    let mut ix = TermIndex::build(&sample());
    ix.add_chunks(&[chunk("c", "cat")]);
    assert_eq!(ix.collect_postings("cat", &[]), vec![(0, 2), (2, 1)]);
    assert_eq!(ix.entry_of("cat").unwrap().df, 2);
    assert!(ix.added_postings("cat").is_empty());
}

#[test]
fn set_entry_replaces() {
    let mut ix = TermIndex::new();
    ix.set_entry(
        "x".to_string(),
        search_engine_rust::postings::TermEntry { df: 1, postings: Some(vec![(5, 1)]), offset: 0, len: 1 },
    );
    assert_eq!(ix.collect_postings("x", &[]), vec![(5, 1)]);
}

#[test]
fn adding_chunks_equals_building_from_all() {
    let c1 = sample();
    let c2 = vec![chunk("c", "cat fish"), chunk("d", "dog dog")];
    let mut grown = TermIndex::build(&c1);
    grown.add_chunks(&c2);
    let mut all = c1.clone();
    all.extend(c2.clone());
    let whole = TermIndex::build(&all);
    assert_eq!(grown.doc_lens(), whole.doc_lens());
    assert_eq!(grown.total_len(), whole.total_len());
    for t in ["cat", "dog", "bird", "fish", "none"] {
        assert_eq!(grown.collect_postings(t, &[]), whole.collect_postings(t, &[]));
        assert_eq!(grown.has_term(t), whole.has_term(t));
    }
}
