//! Processing of crawled pages: exact and near-duplicate elimination by
//! SimHash, and chunking into `ProcessedChunk`s.
use vstd::prelude::*;
use vstd::hash_map::HashMapWithView;
use vstd::hash_set::StringHashSet;
use crate::chars::{clone_strings, extend_chars, str_chars, string_from_chars};
use crate::numfmt::push_decimal;
use crate::processing::{chunk_id, join_words, ChunkingConfig};
use crate::storage::{ProcessedChunk, RawPage, StorageManager};
use crate::text::{char_words, normalize, normalize_text, split_whitespace, string_views, tokenize, tokens, words, Lang};

verus! {

broadcast use vstd::std_specs::hash::group_hash_axioms;

/// Word limits of page chunks.
#[derive(Clone, Debug)]
pub struct ProcessConfig {
    pub min_words: usize,
    pub max_words: usize,
}

/// Turns the crawled pages of a storage directory into chunks.
pub struct Processor {
    pub config: ProcessConfig,
    pub chunking: ChunkingConfig,
    pub storage: StorageManager,
}

impl Processor {
    /// A processor whose chunks aim at the midpoint of the word limits (at least 1).
    pub fn new(config: ProcessConfig, storage: StorageManager) -> (r: Self)
        requires
            config.min_words + config.max_words <= usize::MAX,
        ensures
            r.chunking.min_words == config.min_words,
            r.chunking.max_words == config.max_words,
            r.chunking.target_words == if (config.min_words + config.max_words) / 2 >= 1 {
                (config.min_words + config.max_words) / 2
            } else {
                1
            },
            r.config == config,
            r.storage.root() == storage.root(),
    {
        let mid = (config.min_words + config.max_words) / 2;
        let target = if mid >= 1 {
            mid
        } else {
            1
        };
        let chunking = ChunkingConfig {
            min_words: config.min_words,
            max_words: config.max_words,
            target_words: target,
        };
        Processor { config, chunking, storage }
    }

    /// The chunks to store for the crawled pages, one batch per page kept: a
    /// page is dropped when its normalised text was seen before, or when it
    /// is a near duplicate of a page kept before (see `keep_pages`).
    pub fn process_all(&self, pages: &[RawPage]) -> (r: Vec<Vec<ProcessedChunk>>)
        requires
            forall|k: int| 0 <= k < pages@.len() ==> page_chunking_terminates(#[trigger] pages@[k].text@, self.chunking),
        ensures
            r@.len() == kept_pages(pages@).len(),
            forall|k: int| 0 <= k < r@.len() ==> page_chunks(kept_pages(pages@)[k], self.chunking, #[trigger] r@[k]@),
    {
        let mut exact_seen = StringHashSet::new();
        let mut buckets: HashMapWithView<u16, Vec<u64>> = HashMapWithView::new();
        let mut out: Vec<Vec<ProcessedChunk>> = Vec::new();
        let mut i: usize = 0;
        while i < pages.len()
            invariant
                i <= pages.len(),
                forall|k: int| 0 <= k < pages@.len() ==> page_chunking_terminates(#[trigger] pages@[k].text@, self.chunking),
                dedup_state(pages@.take(i as int)) == (exact_seen@, bucket_view(buckets@)),
                out@.len() == kept_pages(pages@.take(i as int)).len(),
                forall|k: int| 0 <= k < out@.len() ==> page_chunks(kept_pages(pages@.take(i as int))[k], self.chunking, #[trigger] out@[k]@),
            decreases pages.len() - i,
        {
            let ghost before = pages@.take(i as int);
            let ghost after = pages@.take(i + 1);
            assert(after.drop_last() =~= before);
            assert(after.last() == pages@[i as int]);
            let page = &pages[i];
            let hash = normalize_text(page.text.as_str());
            if exact_seen.insert(hash) {
                let ghost old_b = bucket_view(buckets@);
                if !is_near_duplicate(page.text.as_str(), &mut buckets) {
                    let chunks = chunk_text(page, &self.chunking);
                    out.push(chunks);
                } else {
                    assert(bucket_view(buckets@) =~= old_b);
                }
            }
            i += 1;
        }
        assert(pages@.take(pages@.len() as int) =~= pages@);
        out
    }
}

// ---------------------------------------------------------------------------
// Hashing

/// One step of 64-bit FNV-1a.
pub open spec fn fnv64_step(h: u64, b: u8) -> u64 {
    (((h ^ (b as u64)) as nat * 0x100000001b3nat) % 0x1_0000_0000_0000_0000nat) as u64
}

/// 64-bit FNV-1a of a byte sequence.
pub open spec fn fnv64(bytes: Seq<u8>) -> u64
    decreases bytes.len(),
{
    if bytes.len() == 0 {
        0xcbf29ce484222325u64
    } else {
        fnv64_step(fnv64(bytes.drop_last()), bytes.last())
    }
}

/// The 64-bit FNV-1a hash of the UTF-8 bytes of `s`.
pub fn murmur64(s: &str) -> (r: u64)
    ensures
        r == fnv64(vstd::utf8::encode_utf8(s@)),
{
    let bytes = s.as_bytes();
    let mut h: u64 = 0xcbf29ce484222325u64;
    let mut i: usize = 0;
    while i < bytes.len()
        invariant
            i <= bytes.len(),
            h == fnv64(bytes@.take(i as int)),
        decreases bytes.len() - i,
    {
        assert(bytes@.take(i + 1).drop_last() =~= bytes@.take(i as int));
        h = (h ^ (bytes[i] as u64)).wrapping_mul(0x100000001b3u64);
        i += 1;
    }
    assert(bytes@.take(bytes@.len() as int) =~= bytes@);
    h
}

/// Bit `i` of `x` is set.
pub open spec fn bit(x: u64, i: u64) -> bool {
    (x >> i) & 1u64 == 1u64
}

/// How many of the hashes have bit `i` set.
pub open spec fn ones(hs: Seq<u64>, i: u64) -> nat
    decreases hs.len(),
{
    if hs.len() == 0 {
        0
    } else {
        ones(hs.drop_last(), i) + if bit(hs.last(), i) {
            1nat
        } else {
            0nat
        }
    }
}

proof fn lemma_ones_le(hs: Seq<u64>, i: u64)
    ensures
        ones(hs, i) <= hs.len(),
    decreases hs.len(),
{
    if hs.len() > 0 {
        lemma_ones_le(hs.drop_last(), i);
    }
}

/// The value whose bits `0..k` are set exactly where more than half of the hashes have that bit set.
pub open spec fn majority_bits(hs: Seq<u64>, k: u64) -> u64
    decreases k,
{
    if k == 0 {
        0
    } else {
        let prev = majority_bits(hs, (k - 1) as u64);
        if 2 * ones(hs, (k - 1) as u64) > hs.len() {
            prev | (1u64 << ((k - 1) as u64))
        } else {
            prev
        }
    }
}

/// The SimHash of a sequence of token hashes: 0 for no tokens, otherwise
/// each bit is set when more than half of the hashes have it set.
pub open spec fn simhash_of(hs: Seq<u64>) -> u64 {
    if hs.len() == 0 {
        0
    } else {
        majority_bits(hs, 64)
    }
}

/// The hashes of the tokens.
pub open spec fn token_hashes(ts: Seq<Seq<char>>) -> Seq<u64> {
    ts.map_values(|t: Seq<char>| fnv64(vstd::utf8::encode_utf8(t)))
}

/// The SimHash of the English tokens of `text`.
pub open spec fn simhash_text(text: Seq<char>) -> u64 {
    simhash_of(token_hashes(tokens(text, Lang::En)))
}

proof fn lemma_or_bit(p: u64, j: u64, i: u64)
    by (bit_vector)
    requires
        j < 64,
        i < 64,
    ensures
        (((p | (1u64 << j)) >> i) & 1u64 == 1u64) == (((p >> i) & 1u64 == 1u64) || i == j),
{
}

proof fn lemma_zero_bit(i: u64)
    by (bit_vector)
    requires
        i < 64,
    ensures
        !(((0u64 >> i) & 1u64) == 1u64),
{
}

/// Bit `i` of `majority_bits(hs, k)` is set exactly when `i < k` and more
/// than half of the hashes have bit `i` set.
proof fn lemma_majority_bit(hs: Seq<u64>, k: u64, i: u64)
    requires
        k <= 64,
        i < 64,
    ensures
        bit(majority_bits(hs, k), i) == (i < k && 2 * ones(hs, i) > hs.len()),
    decreases k,
{
    if k == 0 {
        lemma_zero_bit(i);
    } else {
        lemma_majority_bit(hs, (k - 1) as u64, i);
        let prev = majority_bits(hs, (k - 1) as u64);
        if 2 * ones(hs, (k - 1) as u64) > hs.len() {
            lemma_or_bit(prev, (k - 1) as u64, i);
        }
    }
}

/// The SimHash of a text weighs every one of its tokens: bit `i` is set
/// exactly when more than half of all the token hashes have bit `i` set
/// (none is set for a text without tokens).
pub proof fn lemma_simhash_is_bitwise_majority(text: Seq<char>, i: u64)
    requires
        i < 64,
    ensures
        ({
            let hs = tokens(text, Lang::En).map_values(|t: Seq<char>| fnv64(vstd::utf8::encode_utf8(t)));
            bit(simhash_text(text), i) <==> 2 * ones(hs, i) > hs.len()
        }),
{
    let hs = tokens(text, Lang::En).map_values(|t: Seq<char>| fnv64(vstd::utf8::encode_utf8(t)));
    assert(hs =~= token_hashes(tokens(text, Lang::En)));
    if hs.len() == 0 {
        lemma_zero_bit(i);
    } else {
        lemma_majority_bit(hs, 64, i);
    }
}

/// SimHash of the English tokens of `text` (see `simhash_of`).
pub fn simhash(text: &str) -> (r: u64)
    ensures
        r == simhash_text(text@),
{
    let toks = tokenize(text);
    let ghost hs = token_hashes(string_views(toks@));
    if toks.len() == 0 {
        return 0;
    }
    let mut counts: Vec<usize> = Vec::new();
    let mut b: u64 = 0;
    while b < 64
        invariant
            b <= 64,
            counts@.len() == b,
            forall|j: int| 0 <= j < b ==> counts@[j] == 0,
        decreases 64 - b,
    {
        counts.push(0);
        b += 1;
    }
    let mut t: usize = 0;
    while t < toks.len()
        invariant
            t <= toks.len(),
            hs == token_hashes(string_views(toks@)),
            counts@.len() == 64,
            forall|j: int| 0 <= j < 64 ==> counts@[j] as nat == ones(hs.take(t as int), j as u64),
            forall|j: int| 0 <= j < 64 ==> counts@[j] <= t,
        decreases toks.len() - t,
    {
        let h = murmur64(toks[t].as_str());
        assert(hs.take(t + 1).drop_last() =~= hs.take(t as int));
        assert(hs.take(t + 1).last() == h);
        let mut i: u64 = 0;
        while i < 64
            invariant
                i <= 64,
                t < toks.len(),
                hs == token_hashes(string_views(toks@)),
                hs.take(t + 1).drop_last() == hs.take(t as int),
                hs.take(t + 1).last() == h,
                counts@.len() == 64,
                forall|j: int| 0 <= j < i ==> counts@[j] as nat == ones(hs.take(t + 1), j as u64),
                forall|j: int| i <= j < 64 ==> counts@[j] as nat == ones(hs.take(t as int), j as u64),
                forall|j: int| 0 <= j < 64 ==> counts@[j] <= t + 1,
            decreases 64 - i,
        {
            proof {
                lemma_ones_le(hs.take(t + 1), i);
                lemma_ones_le(hs.take(t as int), i);
            }
            if (h >> i) & 1u64 == 1u64 {
                let c = counts[i as usize];
                counts.set(i as usize, c + 1);
            }
            i += 1;
        }
        t += 1;
    }
    assert(hs.take(toks@.len() as int) =~= hs);
    let n = toks.len();
    let mut out: u64 = 0;
    let mut k: u64 = 0;
    while k < 64
        invariant
            k <= 64,
            n == hs.len(),
            counts@.len() == 64,
            forall|j: int| 0 <= j < 64 ==> counts@[j] as nat == ones(hs, j as u64),
            forall|j: int| 0 <= j < 64 ==> counts@[j] <= n,
            out == majority_bits(hs, k),
        decreases 64 - k,
    {
        let c = counts[k as usize];
        if c > n - c {
            out = out | (1u64 << k);
        }
        k += 1;
    }
    out
}

/// Number of set bits among the low `k` bits of `x`.
pub open spec fn popcount_low(x: u64, k: u64) -> nat
    decreases k,
{
    if k == 0 {
        0
    } else {
        popcount_low(x, (k - 1) as u64) + if bit(x, (k - 1) as u64) {
            1nat
        } else {
            0nat
        }
    }
}

/// Number of set bits of `x`.
pub open spec fn popcount(x: u64) -> nat {
    popcount_low(x, 64)
}

/// Number of bits in which `a` and `b` differ.
pub fn hamming(a: u64, b: u64) -> (r: u32)
    ensures
        r == popcount(a ^ b),
{
    let x = a ^ b;
    let mut n: u32 = 0;
    let mut k: u64 = 0;
    while k < 64
        invariant
            k <= 64,
            n == popcount_low(x, k),
            n <= k,
        decreases 64 - k,
    {
        if (x >> k) & 1u64 == 1u64 {
            n += 1;
        }
        k += 1;
    }
    n
}

// ---------------------------------------------------------------------------
// Duplicate elimination

/// The SimHash bucket of a signature: its top 16 bits.
pub open spec fn bucket_of(sig: u64) -> u16 {
    (sig >> 48u64) as u16
}

/// The signature lists of the buckets.
pub open spec fn bucket_view(m: Map<u16, Vec<u64>>) -> Map<u16, Seq<u64>> {
    Map::new(|b: u16| m.contains_key(b), |b: u16| m[b]@)
}

/// `sig` is within Hamming distance 3 of a signature in its bucket.
pub open spec fn near_duplicate(buckets: Map<u16, Seq<u64>>, sig: u64) -> bool {
    buckets.contains_key(bucket_of(sig)) && exists|j: int|
        0 <= j < buckets[bucket_of(sig)].len() && popcount(sig ^ #[trigger] buckets[bucket_of(sig)][j]) <= 3
}

/// The buckets after a signature that is not a near duplicate is recorded.
pub open spec fn record_signature(buckets: Map<u16, Seq<u64>>, sig: u64) -> Map<u16, Seq<u64>> {
    let b = bucket_of(sig);
    let list = if buckets.contains_key(b) {
        buckets[b]
    } else {
        Seq::empty()
    };
    buckets.insert(b, list.push(sig))
}

/// Whether some signature of `list` is within Hamming distance 3 of `sig`.
fn any_close(sig: u64, list: &Vec<u64>) -> (r: bool)
    ensures
        r == exists|k: int| 0 <= k < list@.len() && popcount(sig ^ #[trigger] list@[k]) <= 3,
{
    let mut j: usize = 0;
    while j < list.len()
        invariant
            j <= list.len(),
            forall|k: int| 0 <= k < j ==> popcount(sig ^ #[trigger] list@[k]) > 3,
        decreases list.len() - j,
    {
        if hamming(sig, list[j]) <= 3 {
            return true;
        }
        j += 1;
    }
    false
}

fn copy_u64s(v: &Vec<u64>) -> (r: Vec<u64>)
    ensures
        r@ == v@,
{
    let mut out: Vec<u64> = Vec::new();
    let mut j: usize = 0;
    while j < v.len()
        invariant
            j <= v.len(),
            out@ == v@.take(j as int),
        decreases v.len() - j,
    {
        out.push(v[j]);
        assert(v@.take(j + 1) =~= v@.take(j as int).push(v@[j as int]));
        j += 1;
    }
    assert(v@.take(v@.len() as int) =~= v@);
    out
}

/// Whether `text` is a near duplicate of a text recorded in `buckets`; if it
/// is not, its signature is recorded.
pub fn is_near_duplicate(text: &str, buckets: &mut HashMapWithView<u16, Vec<u64>>) -> (r: bool)
    ensures
        r == near_duplicate(bucket_view(old(buckets)@), simhash_text(text@)),
        r ==> final(buckets)@ == old(buckets)@,
        !r ==> bucket_view(final(buckets)@) == record_signature(bucket_view(old(buckets)@), simhash_text(text@)),
{
    let sig = simhash(text);
    let b = (sig >> 48u64) as u16;
    let ghost bv = bucket_view(buckets@);
    let mut list: Vec<u64> = Vec::new();
    match buckets.get(&b) {
        Some(existing) => {
            assert(bv.contains_key(b) && bv[b] == existing@);
            if any_close(sig, existing) {
                proof {
                    let k = choose|k: int| 0 <= k < existing@.len() && popcount(sig ^ #[trigger] existing@[k]) <= 3;
                    assert(bv[bucket_of(sig)][k] == existing@[k]);
                }
                return true;
            }
            assert(!near_duplicate(bv, sig)) by {
                if near_duplicate(bv, sig) {
                    let k = choose|k: int| 0 <= k < bv[b].len() && popcount(sig ^ #[trigger] bv[b][k]) <= 3;
                    assert(bv[b][k] == existing@[k]);
                }
            }
            list = copy_u64s(existing);
        },
        None => {},
    }
    list.push(sig);
    buckets.insert(b, list);
    assert(bucket_view(buckets@) =~= record_signature(bv, sig));
    false
}

/// The deduplication state after the pages: the normalised texts seen and
/// the signature buckets of the pages kept.
pub open spec fn dedup_state(pages: Seq<RawPage>) -> (Set<Seq<char>>, Map<u16, Seq<u64>>)
    decreases pages.len(),
{
    if pages.len() == 0 {
        (Set::empty(), Map::empty())
    } else {
        let (seen, buckets) = dedup_state(pages.drop_last());
        let p = pages.last();
        let key = normalize(p.text@);
        if seen.contains(key) {
            (seen, buckets)
        } else {
            let sig = simhash_text(p.text@);
            if near_duplicate(buckets, sig) {
                (seen.insert(key), buckets)
            } else {
                (seen.insert(key), record_signature(buckets, sig))
            }
        }
    }
}

/// The pages kept: those whose normalised text was not seen before and that
/// are not near duplicates of a page kept before.
pub open spec fn kept_pages(pages: Seq<RawPage>) -> Seq<RawPage>
    decreases pages.len(),
{
    if pages.len() == 0 {
        Seq::empty()
    } else {
        let (seen, buckets) = dedup_state(pages.drop_last());
        let p = pages.last();
        let prev = kept_pages(pages.drop_last());
        if !seen.contains(normalize(p.text@)) && !near_duplicate(buckets, simhash_text(p.text@)) {
            prev.push(p)
        } else {
            prev
        }
    }
}

// ---------------------------------------------------------------------------
// Page chunks

/// The chunk texts of a page whose words are `ws`, from word `i` on: while
/// more than `max` words remain a chunk of `min(target, max)` words is cut,
/// and the rest is the last chunk.
pub open spec fn page_plan(ws: Seq<Seq<char>>, i: int, cfg: ChunkingConfig) -> Seq<Seq<char>>
    decreases ws.len() - i,
{
    if i >= ws.len() || i < 0 {
        Seq::empty()
    } else if ws.len() - i <= cfg.max_words {
        seq![join_words(ws.subrange(i, ws.len() as int))]
    } else {
        let size = if cfg.target_words < cfg.max_words {
            cfg.target_words
        } else {
            cfg.max_words
        };
        if size == 0 {
            Seq::empty()
        } else {
            seq![join_words(ws.subrange(i, i + size))] + page_plan(ws, i + size, cfg)
        }
    }
}

/// The inputs on which page chunking terminates.
pub open spec fn page_chunking_terminates(text: Seq<char>, cfg: ChunkingConfig) -> bool {
    words(text).len() > cfg.max_words ==> (cfg.target_words > 0 && cfg.max_words > 0)
}

/// The chunks of a page: chunk `k` has identifier `chunk_id(page.id, k + 1)`,
/// the `k`-th planned text, its English tokens, and the page's URL.
pub open spec fn page_chunks(page: RawPage, cfg: ChunkingConfig, r: Seq<ProcessedChunk>) -> bool {
    let texts = page_plan(words(page.text@), 0, cfg);
    &&& r.len() == texts.len()
    &&& forall|k: int| 0 <= k < r.len() ==> {
        &&& (#[trigger] r[k]).id@ == chunk_id(page.id@, (k + 1) as nat)
        &&& r[k].text@ == texts[k]
        &&& string_views(r[k].tokens@) == tokens(texts[k], Lang::En)
        &&& r[k].source_url@ == page.url@
    }
}

/// Cuts a page into chunks of words (see `page_plan`).
pub fn chunk_text(page: &RawPage, config: &ChunkingConfig) -> (r: Vec<ProcessedChunk>)
    requires
        page_chunking_terminates(page.text@, *config),
    ensures
        page_chunks(*page, *config, r@),
{
    let tv = str_chars(page.text.as_str());
    let ws = split_whitespace(&tv);
    let ghost all = char_words(ws@);
    let ghost cfg = *config;
    let mut chunks: Vec<ProcessedChunk> = Vec::new();
    let mut i: usize = 0;
    while i < ws.len()
        invariant
            i <= ws.len(),
            all == char_words(ws@),
            all == words(page.text@),
            cfg == *config,
            page_chunking_terminates(page.text@, cfg),
            chunks@.len() <= i,
            page_plan(all, 0, cfg) == Seq::new(chunks@.len(), |k: int| chunks@[k].text@) + page_plan(all, i as int, cfg),
            forall|k: int| 0 <= k < chunks@.len() ==> {
                &&& (#[trigger] chunks@[k]).id@ == chunk_id(page.id@, (k + 1) as nat)
                &&& string_views(chunks@[k].tokens@) == tokens(chunks@[k].text@, Lang::En)
                &&& chunks@[k].source_url@ == page.url@
            },
        decreases ws.len() - i,
    {
        let remaining = ws.len() - i;
        let size = if remaining <= config.max_words {
            remaining
        } else if config.target_words < config.max_words {
            config.target_words
        } else {
            config.max_words
        };
        let mut text: Vec<char> = Vec::new();
        let mut j: usize = i;
        while j < i + size
            invariant
                i <= j <= i + size <= ws.len(),
                text@ == join_words(char_words(ws@).subrange(i as int, j as int)),
            decreases i + size - j,
        {
            let ghost sub = char_words(ws@).subrange(i as int, j + 1);
            assert(sub.drop_last() =~= char_words(ws@).subrange(i as int, j as int));
            if j > i {
                text.push(' ');
            } else {
                assert(text@ =~= Seq::<char>::empty());
            }
            extend_chars(&mut text, &ws[j]);
            j += 1;
        }
        let text_s = string_from_chars(&text);
        let toks = tokenize(text_s.as_str());
        let mut id = str_chars(page.id.as_str());
        let suffix = str_chars("::chunk");
        extend_chars(&mut id, &suffix);
        push_decimal(&mut id, chunks.len() + 1);
        let ghost old_chunks = chunks@;
        chunks.push(ProcessedChunk {
            id: string_from_chars(&id),
            text: text_s,
            tokens: toks,
            source_url: page.url.clone(),
        });
        proof {
            let next = page_plan(all, (i + size) as int, cfg);
            assert(page_plan(all, i as int, cfg) =~= seq![text@] + next);
            assert(Seq::new(chunks@.len(), |k: int| chunks@[k].text@) =~= Seq::new(old_chunks.len(), |k: int| old_chunks[k].text@).push(text@));
            assert(page_plan(all, 0, cfg) =~= Seq::new(chunks@.len(), |k: int| chunks@[k].text@) + next);
        }
        i += size;
    }
    proof {
        assert(page_plan(all, i as int, cfg) =~= Seq::<Seq<char>>::empty());
        assert(page_plan(all, 0, cfg) =~= Seq::new(chunks@.len(), |k: int| chunks@[k].text@));
    }
    chunks
}

} // verus!
