//! Documents and their division into chunks of words.
use vstd::prelude::*;
use crate::chars::{extend_chars, str_chars, string_from_chars};
use crate::numfmt::{decimal, push_decimal};
use crate::text::{
    char_words, normalize, normalize_chars, split_whitespace, string_views, tokenize_with_positions,
    tokens, words, Lang, TokenPositions,
};

verus! {

/// A document: an identifier and its text.
#[derive(Clone, Debug)]
pub struct Document {
    pub id: String,
    pub text: String,
}

/// A chunk of a document, with its normalised text and its tokens.
#[derive(Clone, Debug)]
pub struct Chunk {
    pub id: String,
    pub text: String,
    pub clean: String,
    pub tokens: Vec<String>,
    pub positions: TokenPositions,
    pub text_offset: u64,
    pub text_len: u32,
}

/// Sizes, in words, that chunking aims at.
#[derive(Clone, Debug)]
pub struct ChunkingConfig {
    pub min_words: usize,
    pub max_words: usize,
    pub target_words: usize,
}

impl ChunkingConfig {
    /// The default sizes: at least 100, at most 200, aiming at 150 words.
    pub fn default() -> (r: Self)
        ensures
            r.min_words == 100 && r.max_words == 200 && r.target_words == 150,
    {
        ChunkingConfig { min_words: 100, max_words: 200, target_words: 150 }
    }
}

/// The words joined by single spaces.
pub open spec fn join_words(ws: Seq<Seq<char>>) -> Seq<char>
    decreases ws.len(),
{
    if ws.len() == 0 {
        Seq::empty()
    } else if ws.len() == 1 {
        ws[0]
    } else {
        join_words(ws.drop_last()).push(' ') + ws.last()
    }
}

/// A chunk built from `id` and `text`: the text normalised, its tokens and
/// their positions, and no text-store location yet.
pub open spec fn chunk_built(c: Chunk, id: Seq<char>, text: Seq<char>) -> bool {
    &&& c.id@ == id
    &&& c.text@ == text
    &&& c.clean@ == normalize(text)
    &&& string_views(c.tokens@) == tokens(normalize(text), Lang::En)
    &&& c.positions.records(words(normalize(normalize(text))))
    &&& c.text_offset == 0
    &&& c.text_len == 0
}

/// The chunk texts of a document whose words are `ws`, from word `i` on,
/// after the texts `acc`: while more than `max` words remain, a chunk of
/// `min(target, max)` words is cut; the rest becomes a last chunk, or is
/// appended to the previous chunk when it has fewer than `min` words and
/// there is a previous chunk.
pub open spec fn chunk_plan(ws: Seq<Seq<char>>, i: int, cfg: ChunkingConfig, acc: Seq<Seq<char>>) -> Seq<Seq<char>>
    decreases ws.len() - i,
{
    if i >= ws.len() || i < 0 {
        acc
    } else if ws.len() - i <= cfg.max_words {
        let rest = join_words(ws.subrange(i, ws.len() as int));
        if ws.len() - i < cfg.min_words && acc.len() > 0 {
            acc.update(acc.len() - 1, acc.last().push(' ') + rest)
        } else {
            acc.push(rest)
        }
    } else {
        let size = if cfg.target_words < cfg.max_words {
            cfg.target_words
        } else {
            cfg.max_words
        };
        if size == 0 {
            acc
        } else {
            chunk_plan(ws, i + size, cfg, acc.push(join_words(ws.subrange(i, i + size))))
        }
    }
}

/// The chunk texts of a text.
pub open spec fn chunk_texts(text: Seq<char>, cfg: ChunkingConfig) -> Seq<Seq<char>> {
    chunk_plan(words(text), 0, cfg, Seq::empty())
}

/// The identifier of the `k`-th chunk (from 1) of document `doc_id`.
pub open spec fn chunk_id(doc_id: Seq<char>, k: nat) -> Seq<char> {
    doc_id + "::chunk"@ + decimal(k)
}

/// The inputs on which chunking terminates: when a text has more than
/// `max_words` words, chunks of `min(target_words, max_words)` words must
/// not be empty.
pub open spec fn chunking_terminates(text: Seq<char>, cfg: ChunkingConfig) -> bool {
    words(text).len() > cfg.max_words ==> (cfg.target_words > 0 && cfg.max_words > 0)
}

/// The chunks of `doc`: chunk `k` has identifier `chunk_id(doc.id, k + 1)`
/// and text `chunk_texts(doc.text)[k]`.
pub open spec fn chunks_of(doc: Document, cfg: ChunkingConfig, r: Seq<Chunk>) -> bool {
    let texts = chunk_texts(doc.text@, cfg);
    &&& r.len() == texts.len()
    &&& forall|k: int| 0 <= k < r.len() ==> chunk_built(#[trigger] r[k], chunk_id(doc.id@, (k + 1) as nat), texts[k])
}

/// `words[from..to]` joined by single spaces.
pub fn join_range(ws: &Vec<Vec<char>>, from: usize, to: usize) -> (r: Vec<char>)
    requires
        from <= to <= ws.len(),
    ensures
        r@ == join_words(char_words(ws@).subrange(from as int, to as int)),
{
    let mut out: Vec<char> = Vec::new();
    let mut i: usize = from;
    while i < to
        invariant
            from <= i <= to <= ws.len(),
            out@ == join_words(char_words(ws@).subrange(from as int, i as int)),
        decreases to - i,
    {
        let ghost sub = char_words(ws@).subrange(from as int, i + 1);
        assert(sub.drop_last() =~= char_words(ws@).subrange(from as int, i as int));
        if i > from {
            out.push(' ');
        } else {
            assert(out@ =~= Seq::<char>::empty());
        }
        extend_chars(&mut out, &ws[i]);
        i += 1;
    }
    out
}

/// Builds a chunk: normalises the text and records its tokens and positions.
pub fn build_chunk(id: String, text: String) -> (r: Chunk)
    ensures
        chunk_built(r, id@, text@),
{
    let tv = str_chars(text.as_str());
    let cv = normalize_chars(&tv);
    let clean = string_from_chars(&cv);
    let (toks, positions) = tokenize_with_positions(clean.as_str());
    Chunk { id, text, clean, tokens: toks, positions, text_offset: 0, text_len: 0 }
}

/// The identifier of the `k`-th chunk of document `doc_id`.
fn make_chunk_id(doc_id: &String, k: usize) -> (r: String)
    ensures
        r@ == chunk_id(doc_id@, k as nat),
{
    let mut v = str_chars(doc_id.as_str());
    let suffix = str_chars("::chunk");
    extend_chars(&mut v, &suffix);
    push_decimal(&mut v, k);
    string_from_chars(&v)
}

/// Cuts a document into chunks of words (see `chunk_plan`).
pub fn chunk_document(doc: &Document, config: &ChunkingConfig) -> (r: Vec<Chunk>)
    requires
        chunking_terminates(doc.text@, *config),
    ensures
        chunks_of(*doc, *config, r@),
        r@.len() == document_chunk_specs(*doc, *config).len(),
        forall|k: int| 0 <= k < r@.len() ==> chunk_built(
            #[trigger] r@[k],
            document_chunk_specs(*doc, *config)[k].0,
            document_chunk_specs(*doc, *config)[k].1,
        ),
{
    let tv = str_chars(doc.text.as_str());
    let ws = split_whitespace(&tv);
    let ghost all = char_words(ws@);
    let ghost cfg = *config;
    let mut chunks: Vec<Chunk> = Vec::new();
    if ws.len() == 0 {
        return chunks;
    }
    let mut i: usize = 0;
    let ghost mut texts: Seq<Seq<char>> = Seq::empty();
    while i < ws.len()
        invariant
            i <= ws.len(),
            all == char_words(ws@),
            all == words(doc.text@),
            cfg == *config,
            chunking_terminates(doc.text@, cfg),
            chunk_plan(all, 0, cfg, Seq::empty()) == chunk_plan(all, i as int, cfg, texts),
            chunks@.len() == texts.len(),
            chunks@.len() <= i,
            forall|k: int| 0 <= k < chunks@.len() ==> chunk_built(#[trigger] chunks@[k], chunk_id(doc.id@, (k + 1) as nat), texts[k]),
        decreases ws.len() - i,
    {
        let remaining = ws.len() - i;
        if remaining <= config.max_words {
            let rest = join_range(&ws, i, ws.len());
            if remaining < config.min_words && chunks.len() > 0 {
                let last_idx = chunks.len() - 1;
                let mut text = str_chars(chunks[last_idx].text.as_str());
                text.push(' ');
                extend_chars(&mut text, &rest);
                let id = chunks[last_idx].id.clone();
                let rebuilt = build_chunk(id, string_from_chars(&text));
                chunks.set(last_idx, rebuilt);
                proof {
                    texts = texts.update(last_idx as int, texts.last().push(' ') + rest@);
                }
            } else {
                let id = make_chunk_id(&doc.id, chunks.len() + 1);
                chunks.push(build_chunk(id, string_from_chars(&rest)));
                proof {
                    texts = texts.push(rest@);
                }
            }
            assert(chunk_plan(all, 0, cfg, Seq::empty()) == texts);
            return chunks;
        }
        let size = if config.target_words < config.max_words {
            config.target_words
        } else {
            config.max_words
        };
        let piece = join_range(&ws, i, i + size);
        let id = make_chunk_id(&doc.id, chunks.len() + 1);
        chunks.push(build_chunk(id, string_from_chars(&piece)));
        proof {
            texts = texts.push(piece@);
        }
        i += size;
    }
    chunks
}

/// All the chunks of the documents, in order.
pub open spec fn all_chunk_specs(docs: Seq<Document>, cfg: ChunkingConfig) -> Seq<(Seq<char>, Seq<char>)>
    decreases docs.len(),
{
    if docs.len() == 0 {
        Seq::empty()
    } else {
        let d = docs.last();
        let texts = chunk_texts(d.text@, cfg);
        all_chunk_specs(docs.drop_last(), cfg) + Seq::new(texts.len(), |k: int| (chunk_id(d.id@, (k + 1) as nat), texts[k]))
    }
}

/// The chunk identifiers and texts that `chunk_document` gives document `d`.
pub open spec fn document_chunk_specs(d: Document, cfg: ChunkingConfig) -> Seq<(Seq<char>, Seq<char>)> {
    let texts = chunk_texts(d.text@, cfg);
    Seq::new(texts.len(), |k: int| (chunk_id(d.id@, (k + 1) as nat), texts[k]))
}

/// Processing documents is chunking each of them and concatenating the
/// chunks: the chunks of `a + b` are those of `a` followed by those of `b`,
/// and those of one document are what `chunk_document` gives it (both
/// functions build each chunk with `chunk_built` from these identifiers and
/// texts).
pub proof fn lemma_process_is_concat(a: Seq<Document>, b: Seq<Document>, cfg: ChunkingConfig)
    ensures
        all_chunk_specs(a + b, cfg) == all_chunk_specs(a, cfg) + all_chunk_specs(b, cfg),
        b.len() == 1 ==> all_chunk_specs(b, cfg) == document_chunk_specs(b[0], cfg),
    decreases b.len(),
{
    if b.len() == 0 {
        assert(a + b =~= a);
        assert(all_chunk_specs(a, cfg) + all_chunk_specs(b, cfg) =~= all_chunk_specs(a, cfg));
    } else {
        assert((a + b).drop_last() =~= a + b.drop_last());
        assert((a + b).last() == b.last());
        lemma_process_is_concat(a, b.drop_last(), cfg);
        let x = all_chunk_specs(a, cfg);
        let y = all_chunk_specs(b.drop_last(), cfg);
        let d = b.last();
        let texts = chunk_texts(d.text@, cfg);
        let z = Seq::new(texts.len(), |k: int| (chunk_id(d.id@, (k + 1) as nat), texts[k]));
        assert((x + y) + z =~= x + (y + z));
        if b.len() == 1 {
            assert(b.drop_last().len() == 0);
            assert(y =~= Seq::<(Seq<char>, Seq<char>)>::empty());
            assert(y + z =~= z);
            assert(b[0] == d);
        }
    }
}

/// Chunks every document and concatenates the chunks.
pub fn process_documents(docs: &[Document], config: &ChunkingConfig) -> (r: Vec<Chunk>)
    requires
        forall|k: int| 0 <= k < docs@.len() ==> chunking_terminates(#[trigger] docs@[k].text@, *config),
    ensures
        r@.len() == all_chunk_specs(docs@, *config).len(),
        forall|k: int| 0 <= k < r@.len() ==> chunk_built(#[trigger] r@[k], all_chunk_specs(docs@, *config)[k].0, all_chunk_specs(docs@, *config)[k].1),
{
    let mut all: Vec<Chunk> = Vec::new();
    let mut i: usize = 0;
    while i < docs.len()
        invariant
            i <= docs.len(),
            forall|k: int| 0 <= k < docs@.len() ==> chunking_terminates(#[trigger] docs@[k].text@, *config),
            all@.len() == all_chunk_specs(docs@.take(i as int), *config).len(),
            forall|k: int| 0 <= k < all@.len() ==> chunk_built(#[trigger] all@[k], all_chunk_specs(docs@.take(i as int), *config)[k].0, all_chunk_specs(docs@.take(i as int), *config)[k].1),
        decreases docs.len() - i,
    {
        assert(docs@.take(i + 1).drop_last() =~= docs@.take(i as int));
        assert(docs@.take(i + 1).last() == docs@[i as int]);
        let mut chunks = chunk_document(&docs[i], config);
        let ghost prev = all@;
        let ghost added = chunks@;
        all.append(&mut chunks);
        proof {
            let d = docs@[i as int];
            let texts = chunk_texts(d.text@, *config);
            let ext = Seq::new(texts.len(), |k: int| (chunk_id(d.id@, (k + 1) as nat), texts[k]));
            let before = all_chunk_specs(docs@.take(i as int), *config);
            assert(all_chunk_specs(docs@.take(i + 1), *config) == before + ext);
            assert forall|k: int| 0 <= k < all@.len() implies chunk_built(#[trigger] all@[k], all_chunk_specs(docs@.take(i + 1), *config)[k].0, all_chunk_specs(docs@.take(i + 1), *config)[k].1) by {
                if k < prev.len() {
                    assert(all@[k] == prev[k]);
                } else {
                    assert(all@[k] == added[k - prev.len()]);
                }
            }
        }
        i += 1;
    }
    assert(docs@.take(docs@.len() as int) =~= docs@);
    all
}

} // verus!
