use search_engine_rust::cache::QueryCache;
use search_engine_rust::correction::{build_term_buckets, suggest_correction};
use search_engine_rust::engine::{correct_tokens, delete_documents, index_health, split_docs, update_documents, EngineCore};
use search_engine_rust::index_store::{persist_chunks, restore_chunks, IndexMeta, IndexStore};
use search_engine_rust::processing::{build_chunk, process_documents, Chunk, ChunkingConfig, Document};
use search_engine_rust::term_index::TermIndex;
use search_engine_rust::text_store::{store_texts, text_at};

fn doc(id: &str, text: &str) -> Document {
    Document { id: id.to_string(), text: text.to_string() }
}

fn strings(v: &[&str]) -> Vec<String> {
    v.iter().map(|s| s.to_string()).collect()
}

fn meta(doc_count: usize) -> IndexMeta {
    IndexMeta { version: 2, text_store_file: None, doc_count, deleted_count: 0, updated_at: 0 }
}

fn engine() -> EngineCore {
    let chunks = process_documents(&[doc("a", "cat dog"), doc("b", "bird")], &ChunkingConfig::default());
    let ix = TermIndex::build(&chunks);
    let buckets = build_term_buckets(ix.terms());
    EngineCore::new(chunks, buckets, ChunkingConfig::default(), meta(2))
}

#[test]
fn store_file_names() {
    let s = IndexStore::new("idx");
    assert_eq!(s.root_path(), "idx");
    assert_eq!(s.file("x.bin"), "idx/x.bin");
    assert_eq!(s.meta_path(), "idx/meta.bin");
    assert_eq!(s.chunks_path(), "idx/chunks.bin");
    assert_eq!(s.bm25_terms_path(), "idx/bm25_terms.bin");
    assert_eq!(s.bm25_postings_path(), "idx/bm25_postings.bin");
    assert_eq!(s.legacy_bm25_path(), "idx/bm25.bin");
    assert_eq!(s.vector_path(), "idx/vector.bin");
    assert_eq!(s.deleted_path(), "idx/deleted.bin");
    assert_eq!(s.text_store_path(), "idx/textstore.bin");
    assert_eq!(s.wal_path(), "idx/wal.jsonl");
}

#[test]
fn persisted_chunks_come_back_without_text() {
    let mut c = build_chunk("id1".to_string(), "Some Text".to_string());
    c.text_offset = 12;
    c.text_len = 9;
    let saved = persist_chunks(&[c]);
    assert_eq!(saved.len(), 1);
    assert_eq!((saved[0].id.as_str(), saved[0].clean.as_str()), ("id1", "some text"));
    let back = restore_chunks(saved);
    assert_eq!(back[0].id, "id1");
    assert_eq!(back[0].clean, "some text");
    assert_eq!((back[0].text_offset, back[0].text_len), (12, 9));
    assert!(back[0].text.is_empty());
    assert!(back[0].tokens.is_empty());
    assert!(back[0].positions.is_empty());
}

#[test]
fn deleting_twice_deletes_nothing_more() {
    let mut e = engine();
    assert_eq!(delete_documents(&mut e, strings(&["a::chunk1", "x", "x"]), 10), 2);
    assert_eq!(delete_documents(&mut e, strings(&["a::chunk1", "x"]), 11), 0);
    assert!(e.is_deleted("x"));
    assert!(!e.is_deleted("b::chunk1"));
    assert_eq!(e.meta().deleted_count, 2);
    assert_eq!(e.meta().updated_at, 11);
    assert_eq!(e.chunks().len(), 2);
}

#[test]
fn health_is_ok_until_more_deleted_than_held() {
    let mut e = engine();
    delete_documents(&mut e, strings(&["p", "q"]), 1);
    let h = index_health(&e, 5, 7);
    assert!(h.ok);
    assert_eq!(h.message, "ok");
    assert_eq!((h.doc_count, h.deleted_count, h.index_version), (2, 2, 2));
    assert_eq!((h.text_store_bytes, h.vector_bytes, h.index_updated_at), (5, 7, 1));
    delete_documents(&mut e, strings(&["r"]), 2);
    let h = index_health(&e, 0, 0);
    assert!(!h.ok);
    assert_eq!(h.message, "metadata mismatch");
}

#[test]
fn updating_appends_chunks_and_learns_terms() {
    let mut e = engine();
    assert_eq!(update_documents(&mut e, Vec::new(), 5), 0);
    assert_eq!(e.meta().updated_at, 0);
    assert_eq!(update_documents(&mut e, vec![doc("n", "hello world")], 20), 1);
    assert_eq!(e.chunks().len(), 3);
    assert_eq!(e.doc_id(2), Some("n::chunk1".to_string()));
    assert_eq!(e.doc_id(3), None);
    assert_eq!(e.meta().doc_count, 3);
    assert_eq!(e.meta().updated_at, 20);
    assert_eq!(suggest_correction("helo", e.buckets()), Some("hello".to_string()));
}

#[test]
fn restored_deletions_are_deleted() {
    let mut e = engine();
    e.restore_deleted(&strings(&["z"]));
    assert!(e.is_deleted("z"));
    assert_eq!(index_health(&e, 0, 0).deleted_count, 1);
}

#[test]
fn query_tokens_are_corrected_only_when_unknown() {
    let chunks = vec![build_chunk("c".to_string(), "cat dog".to_string())];
    let ix = TermIndex::build(&chunks);
    let buckets = build_term_buckets(ix.terms());
    let out = correct_tokens(strings(&["cat", "dgo", "zzz"]), &ix, &buckets);
    assert_eq!(out, strings(&["cat", "dog", "zzz"]));
}

#[test]
fn large_batches_are_split() {
    let small: Vec<Document> = (0..5).map(|i| doc(&i.to_string(), "x")).collect();
    let (first, rest) = split_docs(small);
    assert_eq!((first.len(), rest.len()), (5, 0));
    let mid: Vec<Document> = (0..1500).map(|i| doc(&i.to_string(), "x")).collect();
    let (first, rest) = split_docs(mid);
    assert_eq!((first.len(), rest.len()), (1000, 500));
    assert_eq!(rest[0].id, "1000");
    let big: Vec<Document> = (0..20000).map(|i| doc(&i.to_string(), "x")).collect();
    let (first, rest) = split_docs(big);
    assert_eq!((first.len(), rest.len()), (2000, 18000));
}

#[test]
fn cache_evicts_least_recently_used() {
    let mut c: QueryCache<u32> = QueryCache::new(2);
    c.put("a".to_string(), 1);
    c.put("b".to_string(), 2);
    assert_eq!(c.get("a"), Some(1));
    c.put("c".to_string(), 3);
    assert_eq!(c.get("b"), None);
    assert_eq!(c.get("a"), Some(1));
    assert_eq!(c.get("c"), Some(3));
    c.put("a".to_string(), 9);
    assert_eq!(c.get("a"), Some(9));
}

#[test]
fn zero_capacity_cache_keeps_nothing() {
    let mut c: QueryCache<u32> = QueryCache::new(0);
    c.put("a".to_string(), 1);
    assert_eq!(c.get("a"), None);
}

#[test]
fn stored_texts_read_back() {
    let mut chunks: Vec<Chunk> = vec![
        build_chunk("a".to_string(), "keep".to_string()),
        build_chunk("b".to_string(), "héllo".to_string()),
        build_chunk("c".to_string(), "".to_string()),
        build_chunk("d".to_string(), "end".to_string()),
    ];
    let (bytes, end) = store_texts(&mut chunks, 1, 100);
    assert_eq!(bytes, b"h\xc3\xa9llo\n\nend\n".to_vec());
    assert_eq!(end, 112);
    assert_eq!(chunks[0].text, "keep");
    assert_eq!((chunks[1].text_offset, chunks[1].text_len), (100, 6));
    assert_eq!((chunks[2].text_offset, chunks[2].text_len), (107, 0));
    assert_eq!((chunks[3].text_offset, chunks[3].text_len), (108, 3));
    assert!(chunks[1].text.is_empty());
    let mut store = vec![0u8; 100];
    store.extend_from_slice(&bytes);
    assert_eq!(text_at(&store, chunks[1].text_offset, chunks[1].text_len), Some("héllo".to_string()));
    assert_eq!(text_at(&store, chunks[3].text_offset, chunks[3].text_len), Some("end".to_string()));
    assert_eq!(text_at(&store, chunks[2].text_offset, chunks[2].text_len), None);
    assert_eq!(text_at(&store, 109, 10), None);
}

#[test]
fn invalid_bytes_read_back_replaced() {
    assert_eq!(text_at(&[0x61, 0xff, 0x62], 0, 3), Some("a\u{fffd}b".to_string()));
}

#[test]
fn update_grows_the_chunks_by_the_result() {
    let mut e = engine();
    let before = e.chunks().len();
    let n = update_documents(&mut e, vec![doc("x", "one two"), doc("y", "three")], 3);
    assert_eq!(n, 2);
    assert_eq!(e.chunks().len(), before + n);
    assert_eq!(e.doc_id(before), Some("x::chunk1".to_string()));
    assert_eq!(e.doc_id(before + 1), Some("y::chunk1".to_string()));
    assert_eq!(index_health(&e, 0, 0).doc_count, before + n);
}

#[test]
fn deleting_counts_distinct_new_ids_and_lists_them() {
    let mut e = engine();
    assert_eq!(delete_documents(&mut e, strings(&["p", "q", "p"]), 1), 2);
    assert_eq!(delete_documents(&mut e, strings(&["q", "r", "r", "s"]), 2), 2);
    let mut listed = e.deleted_list().clone();
    listed.sort();
    assert_eq!(listed, strings(&["p", "q", "r", "s"]));
    assert_eq!(delete_documents(&mut e, strings(&["p", "s"]), 3), 0);
    assert_eq!(index_health(&e, 0, 0).deleted_count, 4);
}

#[test]
fn engine_with_zero_chunk_size_takes_short_documents() {
    let chunks = process_documents(&[doc("a", "one two")], &ChunkingConfig { min_words: 0, max_words: 5, target_words: 0 });
    let mut e = EngineCore::new(chunks, build_term_buckets(&[]), ChunkingConfig { min_words: 0, max_words: 5, target_words: 0 }, meta(1));
    assert_eq!(update_documents(&mut e, vec![doc("b", "three four")], 1), 1);
    assert_eq!(e.chunks().len(), 2);
}
