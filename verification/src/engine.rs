//! The document-level state of a search engine: its chunks, the
//! identifiers of deleted documents, the buckets of known terms used for
//! spelling correction and the index metadata, with the operations that
//! add documents, delete them and report on the index's health.
use vstd::prelude::*;
use vstd::hash_set::StringHashSet;
use crate::correction::{absorb, chunk_tokens, suggest_correction, suggestion, update_term_buckets, TermBuckets};
use crate::term_index::TermIndex;
use crate::text::byte_len;
use crate::index_store::IndexMeta;
use crate::processing::{
    all_chunk_specs, chunk_built, chunking_terminates, process_documents, Chunk, ChunkingConfig,
    Document,
};

verus! {

/// A report on the state of an index.
#[derive(Clone, Debug)]
pub struct IndexHealth {
    pub doc_count: usize,
    pub deleted_count: usize,
    pub index_version: u32,
    pub index_updated_at: u64,
    pub text_store_bytes: u64,
    pub vector_bytes: usize,
    pub ok: bool,
    pub message: String,
}

/// The identifiers of `ids`, as a set.
pub open spec fn id_set(ids: Seq<String>) -> Set<Seq<char>> {
    Set::new(|s: Seq<char>| exists|k: int| 0 <= k < ids.len() && #[trigger] ids[k]@ == s)
}

/// Adding a string to a sequence adds its characters to the set of them.
proof fn lemma_id_set_push(s: Seq<String>, x: String)
    ensures
        id_set(s.push(x)) == id_set(s).insert(x@),
{
    let t = s.push(x);
    assert forall|v: Seq<char>| id_set(t).contains(v) <==> id_set(s).insert(x@).contains(v) by {
        if id_set(t).contains(v) {
            let k = choose|k: int| 0 <= k < t.len() && #[trigger] t[k]@ == v;
            if k < s.len() {
                assert(s[k] == t[k]);
            }
        }
        if id_set(s).contains(v) {
            let k = choose|k: int| 0 <= k < s.len() && #[trigger] s[k]@ == v;
            assert(t[k] == s[k]);
        }
        if v == x@ {
            assert(t[s.len() as int]@ == v);
        }
    }
    assert(id_set(t) =~= id_set(s).insert(x@));
}

/// The identifiers of a sequence of strings form a finite set.
pub proof fn lemma_id_set_finite(s: Seq<String>)
    ensures
        id_set(s).finite(),
{
    let m = s.map_values(|x: String| x@);
    assert forall|v: Seq<char>| id_set(s).contains(v) <==> m.to_set().contains(v) by {
        if id_set(s).contains(v) {
            let k = choose|k: int| 0 <= k < s.len() && #[trigger] s[k]@ == v;
            assert(m[k] == v);
        }
        if m.to_set().contains(v) {
            let k = choose|k: int| 0 <= k < m.len() && m[k] == v;
            assert(s[k]@ == v);
        }
    }
    assert(id_set(s) =~= m.to_set());
    vstd::seq_lib::seq_to_set_is_finite(m);
}

/// The document-level state of an engine.
pub struct EngineCore {
    chunks: Vec<Chunk>,
    deleted: StringHashSet,
    deleted_list: Vec<String>,
    buckets: TermBuckets,
    meta: IndexMeta,
    chunking: ChunkingConfig,
}

impl EngineCore {
    /// The chunks, in the order they were added.
    pub closed spec fn chunk_seq(&self) -> Seq<Chunk> {
        self.chunks@
    }

    /// The identifiers of deleted documents.
    pub closed spec fn deleted_ids(&self) -> Set<Seq<char>> {
        self.deleted@
    }

    /// The index metadata.
    pub closed spec fn meta_spec(&self) -> IndexMeta {
        self.meta
    }

    /// The buckets of known terms.
    pub closed spec fn buckets_spec(&self) -> TermBuckets {
        self.buckets
    }

    /// The chunking settings new documents are cut with.
    pub closed spec fn chunking_spec(&self) -> ChunkingConfig {
        self.chunking
    }

    /// The deleted set is finite and listed once each in `deleted_list`, and
    /// the buckets are well formed.
    pub closed spec fn wf(&self) -> bool {
        &&& self.deleted@.finite()
        &&& self.deleted@ == id_set(self.deleted_list@)
        &&& forall|a: int, b: int|
            0 <= a < b < self.deleted_list@.len() ==> #[trigger] self.deleted_list@[a]@ != #[trigger] self.deleted_list@[b]@
        &&& self.buckets.wf()
    }

    /// The state of an engine over `chunks`, with no deleted document.
    pub fn new(chunks: Vec<Chunk>, buckets: TermBuckets, chunking: ChunkingConfig, meta: IndexMeta) -> (r: Self)
        requires
            buckets.wf(),
        ensures
            r.wf(),
            r.chunk_seq() == chunks@,
            r.deleted_ids() == Set::<Seq<char>>::empty(),
            r.buckets_spec() == buckets,
            r.meta_spec() == meta,
            r.chunking_spec() == chunking,
    {
        let r = EngineCore { chunks, deleted: StringHashSet::new(), deleted_list: Vec::new(), buckets, meta, chunking };
        assert(id_set(r.deleted_list@) =~= Set::<Seq<char>>::empty());
        r
    }

    /// Marks the identifiers of `ids` as deleted, as a saved index lists them.
    pub fn restore_deleted(&mut self, ids: &[String])
        requires
            old(self).wf(),
        ensures
            final(self).wf(),
            final(self).deleted_ids() == old(self).deleted_ids() + id_set(ids@),
            final(self).chunk_seq() == old(self).chunk_seq(),
            final(self).meta_spec() == old(self).meta_spec(),
            final(self).buckets_spec() == old(self).buckets_spec(),
            final(self).chunking_spec() == old(self).chunking_spec(),
    {
        let _ = self.insert_deleted(ids);
    }

    /// The identifiers of the deleted documents, each once.
    pub fn deleted_list(&self) -> (r: &Vec<String>)
        requires
            self.wf(),
        ensures
            id_set(r@) == self.deleted_ids(),
            forall|a: int, b: int| 0 <= a < b < r@.len() ==> #[trigger] r@[a]@ != #[trigger] r@[b]@,
    {
        &self.deleted_list
    }

    /// Adds `ids` to the deleted set; returns how many were not in it.
    fn insert_deleted(&mut self, ids: &[String]) -> (count: usize)
        requires
            old(self).wf(),
        ensures
            final(self).wf(),
            final(self).deleted_ids() == old(self).deleted_ids() + id_set(ids@),
            count == final(self).deleted_ids().len() - old(self).deleted_ids().len(),
            final(self).chunk_seq() == old(self).chunk_seq(),
            final(self).meta_spec() == old(self).meta_spec(),
            final(self).buckets_spec() == old(self).buckets_spec(),
            final(self).chunking_spec() == old(self).chunking_spec(),
    {
        let ghost start = self.deleted@;
        let mut count: usize = 0;
        let mut i: usize = 0;
        assert(id_set(ids@.take(0)) =~= Set::<Seq<char>>::empty());
        assert(start + Set::<Seq<char>>::empty() =~= start);
        while i < ids.len()
            invariant
                i <= ids.len(),
                start.finite(),
                self.deleted@.finite(),
                self.deleted@ == start + id_set(ids@.take(i as int)),
                count == self.deleted@.len() - start.len(),
                count <= i,
                self.chunks@ == old(self).chunks@,
                self.meta == old(self).meta,
                self.buckets == old(self).buckets,
                self.chunking == old(self).chunking,
                self.buckets.wf(),
                self.deleted@ =~= id_set(self.deleted_list@),
                forall|a: int, b: int|
                    0 <= a < b < self.deleted_list@.len() ==> #[trigger] self.deleted_list@[a]@
                        != #[trigger] self.deleted_list@[b]@,
            decreases ids.len() - i,
        {
            let ghost before = self.deleted@;
            let ghost before_list = self.deleted_list@;
            let fresh = self.deleted.insert(ids[i].clone());
            if fresh {
                self.deleted_list.push(ids[i].clone());
                proof {
                    lemma_id_set_push(before_list, ids@[i as int]);
                    assert forall|a: int, b: int|
                        0 <= a < b < self.deleted_list@.len() implies #[trigger] self.deleted_list@[a]@
                            != #[trigger] self.deleted_list@[b]@ by {
                        if b == before_list.len() {
                            assert(id_set(before_list).contains(before_list[a]@));
                        } else {
                            assert(before_list[a]@ != before_list[b]@);
                        }
                    }
                }
            }
            proof {
                let t = ids@.take(i + 1);
                assert(t[i as int] == ids@[i as int]);
                assert forall|s: Seq<char>| id_set(t).contains(s) <==> id_set(ids@.take(i as int)).insert(
                    ids@[i as int]@,
                ).contains(s) by {
                    if id_set(t).contains(s) {
                        let k = choose|k: int| 0 <= k < t.len() && #[trigger] t[k]@ == s;
                        if k < i {
                            assert(ids@.take(i as int)[k] == t[k]);
                        }
                    }
                    if id_set(ids@.take(i as int)).contains(s) {
                        let k = choose|k: int| 0 <= k < i && #[trigger] ids@.take(i as int)[k]@ == s;
                        assert(t[k] == ids@.take(i as int)[k]);
                    }
                }
                assert(id_set(t) =~= id_set(ids@.take(i as int)).insert(ids@[i as int]@));
                assert(self.deleted@ =~= start + id_set(t));
                if fresh {
                    assert(self.deleted@.len() == before.len() + 1);
                } else {
                    assert(self.deleted@ =~= before);
                }
            }
            if fresh {
                count += 1;
            }
            i += 1;
        }
        assert(ids@.take(ids@.len() as int) =~= ids@);
        count
    }

    /// The chunk identifier at position `idx`, if any.
    pub fn doc_id(&self, idx: usize) -> (r: Option<String>)
        ensures
            match r {
                Some(s) => idx < self.chunk_seq().len() && s@ == self.chunk_seq()[idx as int].id@,
                None => idx >= self.chunk_seq().len(),
            },
    {
        if idx < self.chunks.len() {
            Some(self.chunks[idx].id.clone())
        } else {
            None
        }
    }

    /// Whether the document with identifier `id` was deleted.
    pub fn is_deleted(&self, id: &str) -> (r: bool)
        ensures
            r == self.deleted_ids().contains(id@),
    {
        self.deleted.contains(id)
    }

    /// The chunks.
    pub fn chunks(&self) -> (r: &Vec<Chunk>)
        ensures
            r@ == self.chunk_seq(),
    {
        &self.chunks
    }

    /// The chunks, to be changed in place (the text store moves their texts
    /// out of memory).
    pub fn chunks_mut(&mut self) -> (r: &mut Vec<Chunk>)
        requires
            old(self).wf(),
        ensures
            r@ == old(self).chunk_seq(),
            final(self).chunk_seq() == final(r)@,
            final(self).wf(),
            final(self).deleted_ids() == old(self).deleted_ids(),
            final(self).buckets_spec() == old(self).buckets_spec(),
            final(self).meta_spec() == old(self).meta_spec(),
            final(self).chunking_spec() == old(self).chunking_spec(),
    {
        &mut self.chunks
    }

    /// The buckets of known terms.
    pub fn buckets(&self) -> (r: &TermBuckets)
        ensures
            *r == self.buckets_spec(),
    {
        &self.buckets
    }

    /// The index metadata.
    pub fn meta(&self) -> (r: &IndexMeta)
        ensures
            *r == self.meta_spec(),
    {
        &self.meta
    }
}

/// Deletes documents by identifier: every identifier of `ids` joins the
/// deleted set, the metadata records the new number of deleted documents
/// and the time `now`, and the result is the number of identifiers that
/// were not deleted before.
pub fn delete_documents(engine: &mut EngineCore, ids: Vec<String>, now: u64) -> (r: usize)
    requires
        old(engine).wf(),
    ensures
        final(engine).wf(),
        final(engine).deleted_ids() == old(engine).deleted_ids() + id_set(ids@),
        final(engine).deleted_ids().finite(),
        r == final(engine).deleted_ids().len() - old(engine).deleted_ids().len(),
        r == id_set(ids@).difference(old(engine).deleted_ids()).len(),
        final(engine).meta_spec() == (IndexMeta {
            deleted_count: final(engine).deleted_ids().len() as usize,
            updated_at: now,
            ..old(engine).meta_spec()
        }),
        final(engine).chunk_seq() == old(engine).chunk_seq(),
        final(engine).buckets_spec() == old(engine).buckets_spec(),
        final(engine).chunking_spec() == old(engine).chunking_spec(),
{
    let ghost before = engine.deleted@;
    let count = engine.insert_deleted(ids.as_slice());
    proof {
        let b = id_set(ids@);
        let d = b.difference(before);
        lemma_id_set_finite(ids@);
        vstd::set_lib::lemma_len_subset(d, b);
        assert(before + b =~= before + d);
        assert(before.disjoint(d));
        vstd::set_lib::lemma_set_disjoint_lens(before, d);
    }
    engine.meta.deleted_count = engine.deleted.len();
    engine.meta.updated_at = now;
    count
}

/// The chunks that documents `docs` are cut into, as `process_documents`
/// returns them.
pub open spec fn processed(docs: Seq<Document>, cfg: ChunkingConfig, r: Seq<Chunk>) -> bool {
    &&& r.len() == all_chunk_specs(docs, cfg).len()
    &&& forall|k: int|
        0 <= k < r.len() ==> chunk_built(
            #[trigger] r[k],
            all_chunk_specs(docs, cfg)[k].0,
            all_chunk_specs(docs, cfg)[k].1,
        )
}

/// Adds documents: they are cut into chunks, which are appended to the
/// engine's chunks and whose tokens join the buckets of known terms; the
/// metadata records the new number of chunks and the time `now`. Returns
/// the number of chunks added; with no document nothing changes.
pub fn update_documents(engine: &mut EngineCore, docs: Vec<Document>, now: u64) -> (r: usize)
    requires
        old(engine).wf(),
        forall|k: int| 0 <= k < docs@.len() ==> chunking_terminates(#[trigger] docs@[k].text@, old(engine).chunking_spec()),
    ensures
        final(engine).wf(),
        docs@.len() == 0 ==> r == 0 && *final(engine) == *old(engine),
        docs@.len() > 0 ==> {
            let added = final(engine).chunk_seq().subrange(
                old(engine).chunk_seq().len() as int,
                final(engine).chunk_seq().len() as int,
            );
            &&& final(engine).chunk_seq().subrange(0, old(engine).chunk_seq().len() as int)
                == old(engine).chunk_seq()
            &&& final(engine).chunk_seq() == old(engine).chunk_seq() + added
            &&& final(engine).chunk_seq().len() == old(engine).chunk_seq().len() + r
            &&& final(engine).chunk_seq().len() <= usize::MAX
            &&& processed(docs@, old(engine).chunking_spec(), added)
            &&& r == added.len()
            &&& forall|k: u128| #[trigger] final(engine).buckets_spec().bucket(k) == absorb(
                old(engine).buckets_spec().bucket(k),
                chunk_tokens(added),
                k,
            )
            &&& final(engine).meta_spec() == (IndexMeta {
                doc_count: final(engine).chunk_seq().len() as usize,
                updated_at: now,
                ..old(engine).meta_spec()
            })
        },
        final(engine).deleted_ids() == old(engine).deleted_ids(),
        final(engine).chunking_spec() == old(engine).chunking_spec(),
{
    if docs.len() == 0 {
        return 0;
    }
    let mut new_chunks = process_documents(docs.as_slice(), &engine.chunking);
    let added = new_chunks.len();
    update_term_buckets(&mut engine.buckets, new_chunks.as_slice());
    let ghost old_chunks = engine.chunks@;
    let ghost nc = new_chunks@;
    engine.chunks.append(&mut new_chunks);
    proof {
        assert(engine.chunks@.subrange(old_chunks.len() as int, engine.chunks@.len() as int) =~= nc);
        assert(engine.chunks@.subrange(0, old_chunks.len() as int) =~= old_chunks);
        assert(engine.chunks@ =~= old_chunks + nc);
    }
    engine.meta.doc_count = engine.chunks.len();
    engine.meta.updated_at = now;
    added
}

/// The health report of an index: its counts, version and update time from
/// the metadata, the sizes it is given, and `ok` exactly when no more
/// documents are deleted than the index holds.
pub fn index_health(engine: &EngineCore, text_store_bytes: u64, vector_bytes: usize) -> (r: IndexHealth)
    requires
        engine.wf(),
    ensures
        r.doc_count == engine.meta_spec().doc_count,
        r.deleted_count == engine.deleted_ids().len(),
        r.index_version == engine.meta_spec().version,
        r.index_updated_at == engine.meta_spec().updated_at,
        r.text_store_bytes == text_store_bytes,
        r.vector_bytes == vector_bytes,
        r.ok == (engine.meta_spec().doc_count >= engine.deleted_ids().len()),
        r.message@ == (if r.ok { "ok"@ } else { "metadata mismatch"@ }),
{
    let deleted = engine.deleted.len();
    let ok = engine.meta.doc_count >= deleted;
    let message = if ok { String::from_str("ok") } else { String::from_str("metadata mismatch") };
    IndexHealth {
        doc_count: engine.meta.doc_count,
        deleted_count: deleted,
        index_version: engine.meta.version,
        index_updated_at: engine.meta.updated_at,
        text_store_bytes,
        vector_bytes,
        ok,
        message,
    }
}

/// Deleting the same identifiers twice deletes nothing the second time: the
/// deleted set stays the same and no identifier is new to it.
pub proof fn lemma_delete_idempotent(before: Set<Seq<char>>, ids: Seq<String>)
    requires
        before.finite(),
    ensures
        (before + id_set(ids)) + id_set(ids) == before + id_set(ids),
        id_set(ids).difference(before + id_set(ids)).len() == 0,
{
    assert((before + id_set(ids)) + id_set(ids) =~= before + id_set(ids));
    assert(id_set(ids).difference(before + id_set(ids)) =~= Set::<Seq<char>>::empty());
}

/// The form of query token `t` that search uses: itself when it is a term of
/// the index, else its proposed correction, if any.
pub open spec fn corrected(index: TermIndex, buckets: TermBuckets, t: Seq<char>) -> Seq<char> {
    if index.has(t) {
        t
    } else {
        match suggestion(buckets, t) {
            Some(s) => s,
            None => t,
        }
    }
}

/// Replaces each query token that is not a term of the index by its
/// proposed correction, when there is one.
pub fn correct_tokens(tokens: Vec<String>, index: &TermIndex, buckets: &TermBuckets) -> (r: Vec<String>)
    requires
        index.wf(),
        buckets.wf(),
        forall|k: int| 0 <= k < tokens@.len() ==> byte_len(#[trigger] tokens@[k]@) + 2 <= usize::MAX,
    ensures
        r@.len() == tokens@.len(),
        forall|k: int| 0 <= k < tokens@.len() ==> (#[trigger] r@[k])@ == corrected(*index, *buckets, tokens@[k]@),
{
    let mut out: Vec<String> = Vec::new();
    let mut i: usize = 0;
    while i < tokens.len()
        invariant
            index.wf(),
            buckets.wf(),
            forall|k: int| 0 <= k < tokens@.len() ==> byte_len(#[trigger] tokens@[k]@) + 2 <= usize::MAX,
            i <= tokens.len(),
            out@.len() == i,
            forall|k: int| 0 <= k < i ==> (#[trigger] out@[k])@ == corrected(*index, *buckets, tokens@[k]@),
        decreases tokens.len() - i,
    {
        let t = &tokens[i];
        if index.has_term(t.as_str()) {
            out.push(t.clone());
        } else {
            match suggest_correction(t.as_str(), buckets) {
                Some(best) => out.push(best),
                None => out.push(t.clone()),
            }
        }
        i += 1;
    }
    out
}

/// Where a large batch of documents is split: a tenth of it, at least 1000
/// documents and at most all of them.
pub open spec fn split_point(n: int) -> int {
    let t = n / 10;
    let s = if t < 1000 { 1000 } else { t };
    if s > n { n } else { s }
}

/// Splits documents into a first batch to index at once and a rest to add
/// later: up to 1000 documents all go first; beyond that the first batch
/// holds a tenth of them, but at least 1000.
pub fn split_docs(docs: Vec<Document>) -> (r: (Vec<Document>, Vec<Document>))
    ensures
        docs@.len() <= 1000 ==> r.0@ == docs@ && r.1@.len() == 0,
        docs@.len() > 1000 ==> r.0@ == docs@.take(split_point(docs@.len() as int)) && r.1@ == docs@.skip(
            split_point(docs@.len() as int),
        ),
{
    let mut docs = docs;
    if docs.len() <= 1000 {
        return (docs, Vec::new());
    }
    let t = docs.len() / 10;
    let s0 = if t < 1000 { 1000 } else { t };
    let split = if s0 > docs.len() { docs.len() } else { s0 };
    let tail = docs.split_off(split);
    (docs, tail)
}

} // verus!
