use search_engine_rust::processing::{build_chunk, chunk_document, process_documents, ChunkingConfig, Document};
use search_engine_rust::processor::{chunk_text, hamming, murmur64, simhash, ProcessConfig, Processor};
use search_engine_rust::storage::{join_path, shard_dir, PipelineConfig, RawPage, StorageManager};

fn doc(id: &str, text: &str) -> Document {
    Document { id: id.to_string(), text: text.to_string() }
}

fn cfg(min: usize, max: usize, target: usize) -> ChunkingConfig {
    ChunkingConfig { min_words: min, max_words: max, target_words: target }
}

#[test]
fn chunking_defaults() {
    let c = ChunkingConfig::default();
    assert_eq!((c.min_words, c.max_words, c.target_words), (100, 200, 150));
    let p = PipelineConfig::default();
    assert_eq!((p.crawl_limit, p.max_depth, p.timeout_ms), (10000, 3, 5000));
    assert_eq!(p.storage_path, "./data");
}

#[test]
fn build_chunk_normalises_and_tokenises() {
    let c = build_chunk("c".to_string(), "The Cat!".to_string());
    assert_eq!(c.id, "c");
    assert_eq!(c.text, "The Cat!");
    assert_eq!(c.clean, "the cat");
    assert_eq!(c.tokens, vec!["cat".to_string()]);
    assert_eq!(c.positions.get("cat"), Some(vec![1]));
    assert_eq!((c.text_offset, c.text_len), (0, 0));
}

#[test]
fn chunk_document_cuts_target_sized_pieces() {
    let chunks = chunk_document(&doc("d", "w1 w2 w3 w4 w5 w6 w7 w8"), &cfg(2, 3, 2));
    let texts: Vec<&str> = chunks.iter().map(|c| c.text.as_str()).collect();
    assert_eq!(texts, vec!["w1 w2", "w3 w4", "w5 w6", "w7 w8"]);
    assert_eq!(chunks[3].id, "d::chunk4");
}

#[test]
fn chunk_document_keeps_last_piece_up_to_max() {
    let chunks = chunk_document(&doc("d", "w1 w2 w3 w4 w5 w6 w7"), &cfg(2, 3, 2));
    let texts: Vec<&str> = chunks.iter().map(|c| c.text.as_str()).collect();
    assert_eq!(texts, vec!["w1 w2", "w3 w4", "w5 w6 w7"]);
}

#[test]
fn chunk_document_merges_short_tail() {
    let chunks = chunk_document(&doc("d", "w1 w2 w3 w4 w5 w6"), &cfg(3, 3, 2));
    let texts: Vec<&str> = chunks.iter().map(|c| c.text.as_str()).collect();
    assert_eq!(texts, vec!["w1 w2", "w3 w4 w5 w6"]);
    assert_eq!(chunks[1].id, "d::chunk2");
    assert_eq!(chunks[1].clean, "w3 w4 w5 w6");
}

#[test]
fn chunk_document_of_empty_text_is_empty() {
    assert!(chunk_document(&doc("d", "   "), &cfg(1, 2, 1)).is_empty());
}

#[test]
fn process_documents_concatenates() {
    let docs = vec![doc("a", "one two"), doc("b", ""), doc("c", "three")];
    let chunks = process_documents(&docs, &ChunkingConfig::default());
    let ids: Vec<&str> = chunks.iter().map(|c| c.id.as_str()).collect();
    assert_eq!(ids, vec!["a::chunk1", "c::chunk1"]);
}

#[test]
fn paths_are_joined_with_one_slash() {
    assert_eq!(join_path("data", "raw"), "data/raw");
    assert_eq!(join_path("data/", "raw"), "data/raw");
    assert_eq!(join_path("", "raw"), "raw");
    assert_eq!(shard_dir("out", 7), "out/shard_0007");
    assert_eq!(shard_dir("out/", 12345), "out/shard_12345");
    let s = StorageManager::new("root");
    assert_eq!(s.root_path(), "root");
    assert_eq!(s.raw_path(), "root/raw/pages.jsonl");
    assert_eq!(s.processed_path(), "root/processed/chunks.jsonl");
    assert_eq!(s.index_path(), "root/index/dataset.json");
    assert_eq!(s.dirs(), vec!["root/raw".to_string(), "root/processed".to_string(), "root/index".to_string()]);
}

#[test]
fn page_id_is_md5_of_url() {
    let p = RawPage::new("a", "T", "body", &["x".to_string()]);
    assert_eq!(p.id, "0cc175b9c0f1b6a831c399e269772661");
    assert_eq!(p.url, "a");
    assert_eq!(p.title, "T");
    assert_eq!(p.text, "body");
    assert_eq!(p.links, vec!["x".to_string()]);
    let e = RawPage::new("", "", "", &[]);
    assert_eq!(e.id, "d41d8cd98f00b204e9800998ecf8427e");
}

#[test]
fn fnv_hash_and_signatures() {
    assert_eq!(murmur64(""), 0xcbf29ce484222325);
    assert_eq!(murmur64("a"), 0xaf63dc4c8601ec8c);
    assert_eq!(simhash(""), 0);
    assert_eq!(simhash("the"), 0);
    assert_eq!(simhash("cats"), murmur64("cat"));
    assert_eq!(simhash("Cat cat"), murmur64("cat"));
    assert_eq!(hamming(0b1011, 0b0001), 2);
    assert_eq!(hamming(0, u64::MAX), 64);
}

#[test]
fn processor_target_is_midpoint() {
    let p = Processor::new(ProcessConfig { min_words: 2, max_words: 3 }, StorageManager::new("r"));
    assert_eq!(p.chunking.target_words, 2);
    let q = Processor::new(ProcessConfig { min_words: 0, max_words: 1 }, StorageManager::new("r"));
    assert_eq!(q.chunking.target_words, 1);
}

#[test]
fn chunk_text_splits_page() {
    let page = RawPage::new("a", "", "a1 a2 a3 a4 a5 a6 a7", &[]);
    let chunks = chunk_text(&page, &cfg(2, 3, 2));
    let texts: Vec<&str> = chunks.iter().map(|c| c.text.as_str()).collect();
    assert_eq!(texts, vec!["a1 a2", "a3 a4", "a5 a6 a7"]);
    assert_eq!(chunks[0].id, "0cc175b9c0f1b6a831c399e269772661::chunk1");
    assert_eq!(chunks[2].source_url, "a");
    assert_eq!(chunks[2].tokens, vec!["a5".to_string(), "a6".to_string(), "a7".to_string()]);
}

#[test]
fn process_all_drops_exact_and_near_duplicates() {
    let p = Processor::new(ProcessConfig { min_words: 100, max_words: 200 }, StorageManager::new("r"));
    let pages = vec![
        RawPage::new("u1", "", "alpha beta gamma", &[]),
        RawPage::new("u2", "", "Alpha, beta gamma!", &[]),
        RawPage::new("u3", "", "the alpha beta gamma", &[]),
        RawPage::new("u4", "", "zebra", &[]),
    ];
    let batches = p.process_all(&pages);
    assert_eq!(batches.len(), 2);
    assert_eq!(batches[0][0].source_url, "u1");
    assert_eq!(batches[1][0].source_url, "u4");
}

#[test]
fn processing_documents_is_chunking_each() {
    let c = cfg(2, 3, 2);
    let docs = vec![doc("a", "w1 w2 w3 w4 w5"), doc("b", "x1"), doc("c", "y1 y2 y3 y4")];
    let all = process_documents(&docs, &c);
    let each: Vec<_> = docs.iter().flat_map(|d| chunk_document(d, &c)).collect();
    assert_eq!(all.len(), each.len());
    for (x, y) in all.iter().zip(each.iter()) {
        assert_eq!((&x.id, &x.text, &x.clean, &x.tokens), (&y.id, &y.text, &y.clean, &y.tokens));
    }
}
