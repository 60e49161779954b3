use search_engine_rust::bundle::{
    default_profiles, export_shard_names, stamp_export_manifest, BundleManifest, LanguagePack, PackManifest, ShardInfo,
    ShardPacker,
};
use search_engine_rust::cli::{doc_ids, usize_after, value_after};
use search_engine_rust::confidence::ConfidenceLevel;
use search_engine_rust::embedding::{fnv1a_hash_bytes, ngram_counts};
use search_engine_rust::evaluation::{answer_hits, distinct_count, first_relevant, hits_at_k, EvalDataset, EvalQuery};
use search_engine_rust::extraction::{factual_subject, is_trivial_sentence, overlap_count, phrase_match};
use search_engine_rust::index_store::{restore_chunks, ChunkPersist};
use search_engine_rust::processing::{build_chunk, Document};
use search_engine_rust::proximity::{chunk_proximity, min_cover_window};
use search_engine_rust::sharding::{first_shard, query_seed, shard_budget, visited_shards};

fn strings(v: &[&str]) -> Vec<String> {
    v.iter().map(|s| s.to_string()).collect()
}

fn doc(id: &str) -> Document {
    Document { id: id.to_string(), text: String::new() }
}

fn fnv(bytes: &[u8]) -> u32 {
    let mut h: u32 = 2166136261;
    for b in bytes {
        h ^= *b as u32;
        h = h.wrapping_mul(16777619);
    }
    h
}

#[test]
fn fnv_known_values() {
    assert_eq!(fnv1a_hash_bytes(b""), 2166136261);
    assert_eq!(fnv1a_hash_bytes(b"a"), 0xe40c292c);
    assert_eq!(fnv1a_hash_bytes(b"foobar"), 0xbf9cf968);
}

#[test]
fn ngram_counts_of_padded_text() {
    let counts = ngram_counts("A!", 8, 1, 2);
    let padded = b" a ";
    let mut expected = vec![0u128; 8];
    for n in 1..=2 {
        for i in 0..=padded.len() - n {
            expected[(fnv(&padded[i..i + n]) as usize) % 8] += 1;
        }
    }
    assert_eq!(counts, expected);
    assert_eq!(counts.iter().sum::<u128>(), 5);
    assert_eq!(ngram_counts("abc", 4, 3, 2), vec![0, 0, 0, 0]);
    assert_eq!(ngram_counts("", 3, 5, 5).iter().sum::<u128>(), 0);
}

#[test]
fn flags_and_values() {
    let args = strings(&["build", "--out", "x", "--out", "y", "--limit", "12", "--bad", "1x"]);
    assert_eq!(value_after(&args, "--out"), Some("x".to_string()));
    assert_eq!(value_after(&args, "--missing"), None);
    assert_eq!(value_after(&strings(&["a", "--out"]), "--out"), None);
    assert_eq!(usize_after(&args, "--limit"), Some(12));
    assert_eq!(usize_after(&args, "--bad"), None);
    assert_eq!(doc_ids(&strings(&["doc:1", "x", "doc:", "doc:a:b", "DOC:2"])), strings(&["1", "", "a:b"]));
}

#[test]
fn bundle_defaults() {
    let m = BundleManifest::fallback();
    assert_eq!((m.version, m.language.as_str()), (1, "en"));
    assert!(m.profiles.is_empty() && m.shards.is_empty());
    let p = default_profiles();
    assert_eq!(p.len(), 2);
    assert_eq!((p[0].name.as_str(), p[0].max_bytes), ("default", 1_000_000_000));
    assert_eq!((p[1].name.as_str(), p[1].max_bytes), ("power", 5_000_000_000));
}

#[test]
fn shards_are_cut_at_max_docs() {
    let mut s = ShardPacker::new(2);
    assert!(s.push(doc("1")).is_none());
    let b = s.push(doc("2")).unwrap();
    assert_eq!(b.iter().map(|d| d.id.as_str()).collect::<Vec<_>>(), vec!["1", "2"]);
    assert_eq!(s.index(), 0);
    s.advance();
    assert_eq!(s.index(), 1);
    assert!(s.push(doc("3")).is_none());
    let rest = s.finish().unwrap();
    assert_eq!(rest.len(), 1);
    assert!(ShardPacker::new(2).finish().is_none());
}

#[test]
fn evaluation_counts() {
    let relevant = strings(&["a", "b"]);
    let ranked = strings(&["x", "a", "b", "a"]);
    assert_eq!(hits_at_k(&relevant, &ranked, 2), 1);
    assert_eq!(hits_at_k(&relevant, &ranked, 10), 3);
    assert_eq!(hits_at_k(&relevant, &ranked, 0), 0);
    assert_eq!(first_relevant(&strings(&["b"]), &ranked), Some(2));
    assert_eq!(first_relevant(&strings(&["z"]), &ranked), None);
    assert_eq!(distinct_count(&strings(&["a", "b", "a"])), 2);
    assert_eq!(answer_hits("The cats sleep", "a cat sleeps here"), (2, 2));
    assert_eq!(answer_hits("the", "anything"), (0, 0));
    let ds = EvalDataset {
        queries: vec![EvalQuery { query: "q".to_string(), relevant_docs: relevant, expected_answer: String::new() }],
    };
    assert_eq!(ds.queries.len(), 1);
}

#[test]
fn answer_words() {
    assert_eq!(factual_subject(&strings(&["what", "is", "rust", "language"])), strings(&["rust", "language"]));
    assert!(is_trivial_sentence("one two three four"));
    assert!(!is_trivial_sentence("one two three four five"));
    assert_eq!(overlap_count("Cats chase mice.", &strings(&["cat", "dog", "mice", "cat"])), 3);
    assert!(phrase_match(&strings(&["a", "b", "c"]), &strings(&["b", "c"])));
    assert!(!phrase_match(&strings(&["a", "b", "c"]), &strings(&["c", "b"])));
    assert!(!phrase_match(&strings(&["a"]), &[]));
    assert!(!phrase_match(&strings(&["a"]), &strings(&["a", "b"])));
    assert_eq!(ConfidenceLevel::High, ConfidenceLevel::High);
    assert_ne!(ConfidenceLevel::Low, ConfidenceLevel::Medium);
}

#[test]
fn shortest_cover_window() {
    assert_eq!(min_cover_window(&vec![vec![1, 10], vec![4, 12]]), Some(3));
    assert_eq!(min_cover_window(&vec![vec![7]]), Some(1));
    assert_eq!(min_cover_window(&vec![vec![5], vec![]]), None);
    assert_eq!(min_cover_window(&vec![vec![3, 9], vec![3]]), Some(1));
}

#[test]
fn proximity_of_query_in_chunk() {
    let c = build_chunk("c".to_string(), "cat sat dog then cat dog".to_string());
    assert_eq!(chunk_proximity(&c, &strings(&["cat", "dog"])), Some(2));
    assert_eq!(chunk_proximity(&c, &strings(&["cat"])), None);
    assert_eq!(chunk_proximity(&c, &strings(&["cat", "fish"])), None);
    let restored = restore_chunks(vec![ChunkPersist {
        id: "c".to_string(),
        clean: "cat sat dog".to_string(),
        text_offset: 0,
        text_len: 0,
    }]);
    assert_eq!(chunk_proximity(&restored[0], &strings(&["dog", "cat"])), Some(3));
}

#[test]
fn queries_are_spread_over_shards() {
    assert_eq!(query_seed(""), 0);
    assert_eq!(query_seed("A, b!"), (97 * 31 + 32) * 31 + 98);
    assert_eq!(query_seed("ab"), 97 * 31 + 98);
    assert_eq!(first_shard("AB", 10), (97 * 31 + 98) % 10);
    assert_eq!(first_shard("AB", 0), 0);
    assert_eq!(shard_budget(1, 3), 1);
    assert_eq!(shard_budget(0, 3), 0);
    assert_eq!(shard_budget(5, 3), 3);
    assert_eq!(shard_budget(2, 3), 2);
    assert_eq!(shard_budget(5, 0), 1);
    assert_eq!(visited_shards(3, 3, 4), vec![3, 0, 1]);
    let long = "x".repeat(100);
    let mut h: usize = 0;
    for b in long.bytes() {
        h = h.wrapping_mul(31).wrapping_add(b as usize);
    }
    assert_eq!(query_seed(&long), h);
}

fn pack(code: &str, shard: &str) -> LanguagePack {
    LanguagePack {
        code: code.to_string(),
        profiles: Vec::new(),
        shards: vec![ShardInfo { name: shard.to_string(), path: String::new(), docs: 1, bytes: 2 }],
    }
}

#[test]
fn manifest_merge_replaces_or_adds_a_language() {
    let mut m = PackManifest::fallback();
    assert_eq!((m.version, m.download_base.clone(), m.languages.len()), (1, None, 0));
    m.merge_pack(pack("en", "s0"), None);
    m.merge_pack(pack("es", "s1"), Some("http://b".to_string()));
    assert_eq!(m.languages.len(), 2);
    assert_eq!(m.download_base, Some("http://b".to_string()));
    m.merge_pack(pack("en", "s2"), None);
    assert_eq!(m.languages.len(), 2);
    assert_eq!(m.languages[0].code, "en");
    assert_eq!(m.languages[0].shards[0].name, "s2");
    assert_eq!(m.languages[1].shards[0].name, "s1");
    assert_eq!(m.download_base, Some("http://b".to_string()));
}

fn profile(name: &str, max: u64) -> search_engine_rust::bundle::BundleProfile {
    search_engine_rust::bundle::BundleProfile { name: name.to_string(), max_bytes: max }
}

#[test]
fn export_stamps_power_profiles_of_the_first_language() {
    let mut m = PackManifest::fallback();
    let mut en = pack("en", "s0");
    en.profiles = vec![profile("default", 1), profile("power", 2), profile("power", 3)];
    let mut es = pack("es", "s1");
    es.profiles = vec![profile("power", 4)];
    m.languages = vec![en, es];
    stamp_export_manifest(&mut m, 2, 99, Some("http://d".to_string()));
    let maxes: Vec<u64> = m.languages[0].profiles.iter().map(|p| p.max_bytes).collect();
    assert_eq!(maxes, vec![1, 99, 99]);
    assert_eq!(m.languages[1].profiles[0].max_bytes, 4);
    assert_eq!(m.download_base, Some("http://d".to_string()));
    stamp_export_manifest(&mut m, 0, 5, None);
    assert_eq!(m.languages[0].profiles[1].max_bytes, 99);
    assert_eq!(m.download_base, Some("http://d".to_string()));
}

#[test]
fn exported_shards_are_the_named_shards_of_english_or_the_first_language() {
    let mut m = PackManifest::fallback();
    assert!(export_shard_names(&m).is_empty());
    let mut es = pack("es", "e0");
    es.shards.push(ShardInfo { name: String::new(), path: String::new(), docs: 0, bytes: 0 });
    m.languages.push(es);
    assert_eq!(export_shard_names(&m), vec!["e0".to_string()]);
    let mut en = pack("en", "n0");
    en.shards.push(ShardInfo { name: "n1".to_string(), path: String::new(), docs: 0, bytes: 0 });
    m.languages.push(en);
    assert_eq!(export_shard_names(&m), vec!["n0".to_string(), "n1".to_string()]);
}
