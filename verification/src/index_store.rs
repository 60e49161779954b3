//! The files of a saved index and the records stored in them: index
//! metadata, the persisted form of chunks, and the operations of the
//! write-ahead log.
use vstd::prelude::*;
use crate::chars::str_chars;
use crate::processing::{Chunk, Document};
use crate::storage::{join_path, path_join};
use crate::text::TokenPositions;

verus! {

/// A chunk as the index stores it: its text lives in the text store.
#[derive(Clone, Debug)]
pub struct ChunkPersist {
    pub id: String,
    pub clean: String,
    pub text_offset: u64,
    pub text_len: u32,
}

/// What a saved index records about itself.
#[derive(Clone, Debug)]
pub struct IndexMeta {
    pub version: u32,
    pub text_store_file: Option<String>,
    pub doc_count: usize,
    pub deleted_count: usize,
    pub updated_at: u64,
}

/// An operation of the write-ahead log: documents added, or identifiers
/// deleted.
#[derive(Debug)]
pub enum WalOp {
    Add(Vec<Document>),
    Delete(Vec<String>),
}

/// The files of an index saved under a root directory.
pub struct IndexStore {
    root: String,
}

impl IndexStore {
    /// The root directory.
    pub closed spec fn root(&self) -> Seq<char> {
        self.root@
    }

    /// The store of the index under `root`.
    pub fn new(root: &str) -> (r: Self)
        ensures
            r.root() == root@,
    {
        IndexStore { root: String::from_str(root) }
    }

    /// The root directory.
    pub fn root_path(&self) -> (r: String)
        ensures
            r@ == self.root(),
    {
        self.root.clone()
    }

    /// The file `name` under the root.
    pub fn file(&self, name: &str) -> (r: String)
        ensures
            r@ == path_join(self.root(), name@),
    {
        join_path(self.root.as_str(), name)
    }

    /// `<root>/meta.bin`, where `save_meta` writes the metadata.
    pub fn meta_path(&self) -> (r: String)
        ensures
            r@ == path_join(self.root(), "meta.bin"@),
    {
        self.file("meta.bin")
    }

    /// `<root>/chunks.bin`, where `save_chunks` writes the chunk records.
    pub fn chunks_path(&self) -> (r: String)
        ensures
            r@ == path_join(self.root(), "chunks.bin"@),
    {
        self.file("chunks.bin")
    }

    /// `<root>/bm25_terms.bin`, the term metadata of the keyword index.
    pub fn bm25_terms_path(&self) -> (r: String)
        ensures
            r@ == path_join(self.root(), "bm25_terms.bin"@),
    {
        self.file("bm25_terms.bin")
    }

    /// `<root>/bm25_postings.bin`, the posting lists of the keyword index.
    pub fn bm25_postings_path(&self) -> (r: String)
        ensures
            r@ == path_join(self.root(), "bm25_postings.bin"@),
    {
        self.file("bm25_postings.bin")
    }

    /// `<root>/bm25.bin`, the keyword index in its earlier single-file form.
    pub fn legacy_bm25_path(&self) -> (r: String)
        ensures
            r@ == path_join(self.root(), "bm25.bin"@),
    {
        self.file("bm25.bin")
    }

    /// `<root>/vector.bin`, the vector index.
    pub fn vector_path(&self) -> (r: String)
        ensures
            r@ == path_join(self.root(), "vector.bin"@),
    {
        self.file("vector.bin")
    }

    /// `<root>/deleted.bin`, the identifiers of deleted documents.
    pub fn deleted_path(&self) -> (r: String)
        ensures
            r@ == path_join(self.root(), "deleted.bin"@),
    {
        self.file("deleted.bin")
    }

    /// `<root>/textstore.bin`, the copy of the text store.
    pub fn text_store_path(&self) -> (r: String)
        ensures
            r@ == path_join(self.root(), "textstore.bin"@),
    {
        self.file("textstore.bin")
    }

    /// `<root>/wal.jsonl`, the write-ahead log.
    pub fn wal_path(&self) -> (r: String)
        ensures
            r@ == path_join(self.root(), "wal.jsonl"@),
    {
        self.file("wal.jsonl")
    }
}

/// The record under which a chunk is saved: its identifier, its
/// normalised text and where its text lies in the text store.
pub open spec fn persisted(c: Chunk, p: ChunkPersist) -> bool {
    &&& p.id@ == c.id@
    &&& p.clean@ == c.clean@
    &&& p.text_offset == c.text_offset
    &&& p.text_len == c.text_len
}

/// The records under which chunks are saved, one per chunk, in order.
pub fn persist_chunks(chunks: &[Chunk]) -> (r: Vec<ChunkPersist>)
    ensures
        r@.len() == chunks@.len(),
        forall|k: int| 0 <= k < chunks@.len() ==> persisted(chunks@[k], #[trigger] r@[k]),
{
    let mut out: Vec<ChunkPersist> = Vec::new();
    let mut i: usize = 0;
    while i < chunks.len()
        invariant
            i <= chunks.len(),
            out@.len() == i,
            forall|k: int| 0 <= k < i ==> persisted(chunks@[k], #[trigger] out@[k]),
        decreases chunks.len() - i,
    {
        let c = &chunks[i];
        out.push(ChunkPersist {
            id: c.id.clone(),
            clean: c.clean.clone(),
            text_offset: c.text_offset,
            text_len: c.text_len,
        });
        i += 1;
    }
    out
}

/// Chunks rebuilt from their saved records: identifier, normalised text and
/// text location come back; the text itself, the tokens and their positions
/// are left empty.
pub fn restore_chunks(records: Vec<ChunkPersist>) -> (r: Vec<Chunk>)
    ensures
        r@.len() == records@.len(),
        forall|k: int| 0 <= k < records@.len() ==> {
            &&& persisted(#[trigger] r@[k], records@[k])
            &&& r@[k].text@.len() == 0
            &&& r@[k].tokens@.len() == 0
            &&& r@[k].positions.wf()
            &&& r@[k].positions.count() == 0
        },
{
    let mut out: Vec<Chunk> = Vec::new();
    let mut i: usize = 0;
    while i < records.len()
        invariant
            i <= records.len(),
            out@.len() == i,
            forall|k: int| 0 <= k < i ==> {
                &&& persisted(#[trigger] out@[k], records@[k])
                &&& out@[k].text@.len() == 0
                &&& out@[k].tokens@.len() == 0
                &&& out@[k].positions.wf()
                &&& out@[k].positions.count() == 0
            },
        decreases records.len() - i,
    {
        let p = &records[i];
        out.push(Chunk {
            id: p.id.clone(),
            text: String::new(),
            clean: p.clean.clone(),
            tokens: Vec::new(),
            positions: TokenPositions::new(),
            text_offset: p.text_offset,
            text_len: p.text_len,
        });
        i += 1;
    }
    out
}

/// Saving chunks and reading them back keeps each chunk's identifier,
/// normalised text and text location.
pub proof fn lemma_persist_roundtrip(c: Chunk, p: ChunkPersist, r: Chunk)
    requires
        persisted(c, p),
        persisted(r, p),
    ensures
        r.id@ == c.id@,
        r.clean@ == c.clean@,
        r.text_offset == c.text_offset,
        r.text_len == c.text_len,
{
}

} // verus!
