//! The inverted index behind keyword search: for every term, the documents
//! it occurs in with its frequency there, and for every document its number
//! of tokens. Posting lists live in memory or, after loading a saved index,
//! in the postings file, to which postings of later documents are added
//! separately.
use vstd::prelude::*;
use vstd::hash_map::StringHashMap;
use crate::chars::str_eq;
use crate::correction::chunk_tokens;
use crate::postings::{
    encode_all, layout_metas, layout_postings, lemma_layout_roundtrip, lists_view, metas_view,
    postings_at, postings_from_raw,
    lemma_metas_len, total_postings, TermEntry, TermMeta,
};
use crate::processing::Chunk;
use crate::text::string_views;

verus! {

/// Number of occurrences of `t` in `ts`.
pub open spec fn occurrences(ts: Seq<Seq<char>>, t: Seq<char>) -> nat
    decreases ts.len(),
{
    if ts.len() == 0 {
        0
    } else {
        occurrences(ts.drop_last(), t) + if ts.last() == t { 1nat } else { 0nat }
    }
}

/// The postings of `t` in `chunks`, numbered from `base`: for every chunk
/// that holds `t`, in order, its number and how often it holds `t`.
pub open spec fn doc_postings(chunks: Seq<Chunk>, base: int, t: Seq<char>) -> Seq<(u32, u32)>
    decreases chunks.len(),
{
    if chunks.len() == 0 {
        Seq::empty()
    } else {
        let prev = doc_postings(chunks.drop_last(), base, t);
        let n = occurrences(string_views(chunks.last().tokens@), t);
        if n > 0 {
            prev.push(((base + chunks.len() - 1) as u32, n as u32))
        } else {
            prev
        }
    }
}

/// Total number of tokens of a sequence of chunks.
pub open spec fn total_tokens(chunks: Seq<Chunk>) -> int
    decreases chunks.len(),
{
    if chunks.len() == 0 {
        0
    } else {
        total_tokens(chunks.drop_last()) + chunks.last().tokens@.len()
    }
}

/// The number of tokens of each chunk.
pub open spec fn token_counts(chunks: Seq<Chunk>) -> Seq<usize> {
    chunks.map_values(|c: Chunk| c.tokens@.len() as usize)
}

/// The inverted index.
pub struct TermIndex {
    slots: StringHashMap<usize>,
    keys: Vec<String>,
    entries: Vec<TermEntry>,
    added: Vec<Vec<(u32, u32)>>,
    doc_lens: Vec<usize>,
    total_len: usize,
}

impl TermIndex {
    /// Whether `t` is a term of the index.
    pub closed spec fn has(&self, t: Seq<char>) -> bool {
        self.slots@.contains_key(t)
    }

    /// The entry of term `t`.
    pub closed spec fn entry(&self, t: Seq<char>) -> TermEntry {
        self.entries@[self.slots@[t] as int]
    }

    /// The terms of the index, each once.
    pub closed spec fn terms_spec(&self) -> Seq<Seq<char>> {
        string_views(self.keys@)
    }

    /// The stored postings of `t`: in memory, or read from the postings
    /// file `disk` at the place its entry records.
    pub open spec fn stored(&self, t: Seq<char>, disk: Seq<u8>) -> Seq<(u32, u32)> {
        if self.has(t) {
            match self.entry(t).postings {
                Some(p) => p@,
                None => postings_at(disk, self.entry(t).offset as int, self.entry(t).len as int),
            }
        } else {
            Seq::empty()
        }
    }

    /// Postings of `t` added while its stored list lay in the postings file.
    pub closed spec fn added_spec(&self, t: Seq<char>) -> Seq<(u32, u32)> {
        if self.has(t) {
            self.added@[self.slots@[t] as int]@
        } else {
            Seq::empty()
        }
    }

    /// All postings of `t`: the stored ones, then the added ones.
    pub open spec fn postings(&self, t: Seq<char>, disk: Seq<u8>) -> Seq<(u32, u32)> {
        self.stored(t, disk) + self.added_spec(t)
    }

    /// The number of tokens of each indexed document.
    pub closed spec fn doc_lens_spec(&self) -> Seq<usize> {
        self.doc_lens@
    }

    /// The total number of tokens of the indexed documents.
    pub closed spec fn total_len_spec(&self) -> usize {
        self.total_len
    }

    /// Every term has one slot, the slots, entries and added lists line up,
    /// and only lists in the postings file have added postings.
    pub closed spec fn wf(&self) -> bool {
        &&& self.keys@.len() == self.entries@.len()
        &&& self.keys@.len() == self.added@.len()
        &&& forall|i: int, j: int|
            0 <= i < j < self.keys@.len() ==> #[trigger] self.keys@[i]@ != #[trigger] self.keys@[j]@
        &&& forall|i: int| 0 <= i < self.keys@.len() ==> #[trigger] self.slots@.contains_key(self.keys@[i]@)
            && self.slots@[self.keys@[i]@] == i
        &&& forall|t: Seq<char>| #[trigger] self.slots@.contains_key(t) ==> {
            let s = self.slots@[t] as int;
            0 <= s < self.keys@.len() && self.keys@[s]@ == t
        }
        &&& forall|i: int|
            0 <= i < self.entries@.len() && (#[trigger] self.entries@[i]).postings is Some ==> self.added@[i]@.len() == 0
    }

    /// An index with no term and no document.
    pub fn new() -> (r: Self)
        ensures
            r.wf(),
            r.terms_spec() == Seq::<Seq<char>>::empty(),
            forall|t: Seq<char>| !#[trigger] r.has(t),
            r.doc_lens_spec() == Seq::<usize>::empty(),
            r.total_len_spec() == 0,
    {
        let r = TermIndex {
            slots: StringHashMap::new(),
            keys: Vec::new(),
            entries: Vec::new(),
            added: Vec::new(),
            doc_lens: Vec::new(),
            total_len: 0,
        };
        assert(r.terms_spec() =~= Seq::<Seq<char>>::empty());
        r
    }

    /// Whether `term` is a term of the index.
    pub fn has_term(&self, term: &str) -> (r: bool)
        ensures
            r == self.has(term@),
    {
        self.slots.contains_key(term)
    }

    /// The terms of the index, each once.
    pub fn terms(&self) -> (r: &Vec<String>)
        ensures
            string_views(r@) == self.terms_spec(),
    {
        &self.keys
    }

    /// The number of tokens of each indexed document.
    pub fn doc_lens(&self) -> (r: &Vec<usize>)
        ensures
            r@ == self.doc_lens_spec(),
    {
        &self.doc_lens
    }

    /// The total number of tokens of the indexed documents.
    pub fn total_len(&self) -> (r: usize)
        ensures
            r == self.total_len_spec(),
    {
        self.total_len
    }

    /// The entry of `term`, if it is a term of the index.
    pub fn entry_of(&self, term: &str) -> (r: Option<&TermEntry>)
        requires
            self.wf(),
        ensures
            match r {
                Some(e) => self.has(term@) && *e == self.entry(term@),
                None => !self.has(term@),
            },
    {
        match self.slots.get(term) {
            Some(s) => Some(&self.entries[*s]),
            None => None,
        }
    }

    /// The postings of `term` added while its stored list lay in the
    /// postings file.
    pub fn added_postings(&self, term: &str) -> (r: &[(u32, u32)])
        requires
            self.wf(),
        ensures
            r@ == self.added_spec(term@),
    {
        match self.slots.get(term) {
            Some(s) => self.added[*s].as_slice(),
            None => &[],
        }
    }
}

impl TermIndex {
    /// The document frequency search uses for `t`: the recorded one plus the
    /// number of postings added while its list lay in the postings file.
    pub open spec fn df_total(&self, t: Seq<char>) -> int {
        (if self.has(t) { self.entry(t).df as int } else { 0 }) + self.added_spec(t).len()
    }

    /// All postings of `term`: its stored list, read from the postings file
    /// `disk` when it is not in memory, then the postings added since.
    pub fn collect_postings(&self, term: &str, disk: &[u8]) -> (r: Vec<(u32, u32)>)
        requires
            self.wf(),
        ensures
            r@ == self.postings(term@, disk@),
    {
        let mut out: Vec<(u32, u32)> = Vec::new();
        match self.slots.get(term) {
            Some(s) => {
                let e = &self.entries[*s];
                match &e.postings {
                    Some(p) => {
                        let mut k: usize = 0;
                        while k < p.len()
                            invariant
                                k <= p.len(),
                                out@ == p@.take(k as int),
                            decreases p.len() - k,
                        {
                            out.push(p[k]);
                            assert(p@.take(k + 1) =~= p@.take(k as int).push(p@[k as int]));
                            k += 1;
                        }
                        assert(p@.take(p@.len() as int) =~= p@);
                    },
                    None => {
                        out = postings_from_raw(disk, e.offset, e.len);
                    },
                }
                let a = &self.added[*s];
                let ghost base = out@;
                let mut k: usize = 0;
                while k < a.len()
                    invariant
                        k <= a.len(),
                        out@ == base + a@.take(k as int),
                    decreases a.len() - k,
                {
                    out.push(a[k]);
                    assert(a@.take(k + 1) =~= a@.take(k as int).push(a@[k as int]));
                    k += 1;
                }
                assert(a@.take(a@.len() as int) =~= a@);
            },
            None => {
                assert(self.postings(term@, disk@) =~= Seq::<(u32, u32)>::empty());
            },
        }
        out
    }

    /// Appends posting `(id, freq)` to `term`, which becomes a term of the
    /// index with an empty list in memory if it was not one: to the list in
    /// memory, counting one more document, or to the added postings when
    /// the list lies in the postings file.
    fn add_posting(&mut self, term: &String, id: u32, freq: u32)
        requires
            old(self).wf(),
            old(self).has(term@) ==> old(self).entry(term@).df < u32::MAX,
        ensures
            final(self).wf(),
            forall|t: Seq<char>| #[trigger] final(self).has(t) == (old(self).has(t) || t == term@),
            forall|t: Seq<char>, disk: Seq<u8>|
                t != term@ ==> #[trigger] final(self).postings(t, disk) == old(self).postings(t, disk),
            forall|t: Seq<char>| t != term@ && old(self).has(t) ==> #[trigger] final(self).entry(t) == old(self).entry(t),
            forall|t: Seq<char>| t != term@ ==> #[trigger] final(self).df_total(t) == old(self).df_total(t),
            forall|disk: Seq<u8>| #[trigger] final(self).postings(term@, disk) == old(self).postings(term@, disk).push((id, freq)),
            final(self).df_total(term@) == old(self).df_total(term@) + 1,
            final(self).has(term@),
            final(self).entry(term@).df <= (if old(self).has(term@) { old(self).entry(term@).df as int } else { 0 }) + 1,
            final(self).terms_spec() == if old(self).has(term@) {
                old(self).terms_spec()
            } else {
                old(self).terms_spec().push(term@)
            },
            final(self).doc_lens_spec() == old(self).doc_lens_spec(),
            final(self).total_len_spec() == old(self).total_len_spec(),
    {
        let idx: usize = match self.slots.get(term.as_str()) {
            Some(s) => *s,
            None => {
                let n = self.keys.len();
                self.slots.insert(term.clone(), n);
                self.keys.push(term.clone());
                self.entries.push(TermEntry { df: 0, postings: Some(Vec::new()), offset: 0, len: 0 });
                self.added.push(Vec::new());
                proof {
                    assert(string_views(self.keys@) =~= string_views(old(self).keys@).push(term@));
                    assert forall|i: int, j: int|
                        0 <= i < j < self.keys@.len() implies #[trigger] self.keys@[i]@ != #[trigger] self.keys@[j]@ by {
                        if j == n {
                            assert(old(self).slots@.contains_key(old(self).keys@[i]@));
                        } else {
                            assert(old(self).keys@[i] == self.keys@[i]);
                            assert(old(self).keys@[j] == self.keys@[j]);
                        }
                    }
                    assert forall|i: int| 0 <= i < self.keys@.len() implies #[trigger] self.slots@.contains_key(
                        self.keys@[i]@,
                    ) && self.slots@[self.keys@[i]@] == i by {
                        if i < n {
                            assert(old(self).keys@[i] == self.keys@[i]);
                            assert(old(self).slots@.contains_key(old(self).keys@[i]@));
                        }
                    }
                    assert forall|t: Seq<char>| #[trigger] self.slots@.contains_key(t) implies {
                        let s = self.slots@[t] as int;
                        0 <= s < self.keys@.len() && self.keys@[s]@ == t
                    } by {
                        if t != term@ {
                            assert(old(self).slots@.contains_key(t));
                            let s = old(self).slots@[t] as int;
                            assert(old(self).keys@[s] == self.keys@[s]);
                        }
                    }
                    assert forall|t: Seq<char>, disk: Seq<u8>|
                        t != term@ implies #[trigger] self.postings(t, disk) == old(self).postings(t, disk) by {
                        if old(self).has(t) {
                            let s = old(self).slots@[t] as int;
                            assert(self.entries@[s] == old(self).entries@[s]);
                            assert(self.added@[s] == old(self).added@[s]);
                        }
                    }
                    assert(self.postings(term@, Seq::empty()) == Seq::<(u32, u32)>::empty() + Seq::<(u32, u32)>::empty());
                }
                n
            },
        };
        let ghost mid = *self;
        assert(mid.wf());
        assert(forall|disk: Seq<u8>| #[trigger] mid.postings(term@, disk) == old(self).postings(term@, disk)) by {
            assert forall|disk: Seq<u8>| #[trigger] mid.postings(term@, disk) == old(self).postings(term@, disk) by {
                if !old(self).has(term@) {
                    assert(mid.stored(term@, disk) =~= Seq::<(u32, u32)>::empty());
                    assert(mid.added_spec(term@) =~= Seq::<(u32, u32)>::empty());
                    assert(old(self).postings(term@, disk) =~= Seq::<(u32, u32)>::empty());
                }
            }
        }
        let mut e = TermEntry { df: 0, postings: None, offset: 0, len: 0 };
        std::mem::swap(&mut e, &mut self.entries[idx]);
        match e.postings {
            Some(mut p) => {
                let ghost p0 = p@;
                p.push((id, freq));
                let n = p.len() as u32;
                self.entries.set(idx, TermEntry { df: e.df + 1, postings: Some(p), offset: e.offset, len: n });
                proof {
                    assert(mid.added@[idx as int]@.len() == 0);
                    assert(mid.stored(term@, Seq::empty()) == p0);
                    assert forall|disk: Seq<u8>| #[trigger] self.postings(term@, disk) == mid.postings(term@, disk).push((id, freq)) by {
                        assert(self.stored(term@, disk) == p0.push((id, freq)));
                        assert(mid.stored(term@, disk) == p0);
                        assert(self.added_spec(term@) =~= Seq::<(u32, u32)>::empty());
                        assert(self.postings(term@, disk) =~= mid.postings(term@, disk).push((id, freq)));
                    }
                }
            },
            None => {
                self.entries.set(idx, TermEntry { df: e.df, postings: None, offset: e.offset, len: e.len });
                let mut a: Vec<(u32, u32)> = Vec::new();
                std::mem::swap(&mut a, &mut self.added[idx]);
                a.push((id, freq));
                self.added.set(idx, a);
                proof {
                    assert forall|disk: Seq<u8>| #[trigger] self.postings(term@, disk) == mid.postings(term@, disk).push((id, freq)) by {
                        assert(self.stored(term@, disk) == mid.stored(term@, disk));
                        assert(self.postings(term@, disk) =~= mid.postings(term@, disk).push((id, freq)));
                    }
                }
            },
        }
        proof {
            assert forall|t: Seq<char>, disk: Seq<u8>|
                t != term@ implies #[trigger] self.postings(t, disk) == old(self).postings(t, disk) by {
                if mid.has(t) {
                    let s = mid.slots@[t] as int;
                    assert(s != idx);
                    assert(self.entries@[s] == mid.entries@[s]);
                    assert(self.added@[s] == mid.added@[s]);
                    assert(self.postings(t, disk) == mid.postings(t, disk));
                }
            }
            assert forall|t: Seq<char>| t != term@ && old(self).has(t) implies #[trigger] self.entry(t) == old(self).entry(t) by {
                let s = mid.slots@[t] as int;
                assert(s != idx);
                let so = old(self).slots@[t] as int;
                assert(so == s);
                assert(old(self).entries@[s] == mid.entries@[s]) by {
                    if !old(self).has(term@) {
                        assert(mid.entries@[s] == old(self).entries@[s]);
                    }
                }
            }
            assert forall|t: Seq<char>| t != term@ implies #[trigger] self.df_total(t) == old(self).df_total(t) by {
                if old(self).has(t) {
                    let s = mid.slots@[t] as int;
                    assert(s != idx);
                    assert(old(self).added@[s] == mid.added@[s]) by {
                        if !old(self).has(term@) {
                            assert(mid.added@[s] == old(self).added@[s]);
                        }
                    }
                }
            }
            assert forall|disk: Seq<u8>| #[trigger] self.postings(term@, disk) == old(self).postings(term@, disk).push((id, freq)) by {
                assert(mid.postings(term@, disk) == old(self).postings(term@, disk));
                assert(self.postings(term@, disk) == mid.postings(term@, disk).push((id, freq)));
            }
        }
    }
}

/// The distinct tokens of `tokens` with the number of times each occurs,
/// in order of first occurrence.
fn count_terms(tokens: &Vec<String>) -> (r: Vec<(String, u32)>)
    requires
        tokens@.len() <= u32::MAX,
    ensures
        forall|a: int, b: int| 0 <= a < b < r@.len() ==> #[trigger] r@[a].0@ != #[trigger] r@[b].0@,
        forall|a: int| 0 <= a < r@.len() ==> (#[trigger] r@[a]).1 == occurrences(string_views(tokens@), r@[a].0@)
            && occurrences(string_views(tokens@), r@[a].0@) > 0,
        forall|t: Seq<char>| occurrences(string_views(tokens@), t) > 0 ==> exists|a: int| 0 <= a < r@.len() && #[trigger] r@[a].0@ == t,
{
    let ghost ts = string_views(tokens@);
    let mut out: Vec<(String, u32)> = Vec::new();
    let mut i: usize = 0;
    while i < tokens.len()
        invariant
            ts == string_views(tokens@),
            tokens@.len() <= u32::MAX,
            i <= tokens.len(),
            forall|a: int, b: int| 0 <= a < b < out@.len() ==> #[trigger] out@[a].0@ != #[trigger] out@[b].0@,
            forall|a: int| 0 <= a < out@.len() ==> (#[trigger] out@[a]).1 == occurrences(ts.take(i as int), out@[a].0@)
                && occurrences(ts.take(i as int), out@[a].0@) > 0,
            forall|t: Seq<char>| occurrences(ts.take(i as int), t) > 0 ==> exists|a: int| 0 <= a < out@.len() && #[trigger] out@[a].0@ == t,
            forall|t: Seq<char>| #[trigger] occurrences(ts.take(i as int), t) <= i,
        decreases tokens.len() - i,
    {
        let tok = &tokens[i];
        let ghost prev = ts.take(i as int);
        proof {
            assert(ts.take(i + 1).drop_last() =~= prev);
            assert(ts.take(i + 1).last() == tok@);
        }
        let ghost out0 = out@;
        let mut found: Option<usize> = None;
        let mut k: usize = 0;
        while k < out.len()
            invariant
                k <= out.len(),
                match found {
                    Some(f) => f < k && out@[f as int].0@ == tok@,
                    None => forall|a: int| 0 <= a < k ==> #[trigger] out@[a].0@ != tok@,
                },
            decreases out.len() - k,
        {
            if found.is_none() && str_eq(out[k].0.as_str(), tok.as_str()) {
                found = Some(k);
            }
            k += 1;
        }
        match found {
            Some(f) => {
                let c = out[f].1;
                proof {
                    assert(occurrences(ts.take(i + 1), tok@) == occurrences(prev, tok@) + 1);
                }
                let name = out[f].0.clone();
                out.set(f, (name, c + 1));
            },
            None => {
                proof {
                    if occurrences(prev, tok@) > 0 {
                        let a = choose|a: int| 0 <= a < out@.len() && #[trigger] out@[a].0@ == tok@;
                        assert(out@[a].0@ != tok@);
                    }
                }
                out.push((tok.clone(), 1));
            },
        }
        proof {
            let ti = ts.take(i + 1);
            assert forall|t: Seq<char>| #[trigger] occurrences(ti, t) == occurrences(prev, t) + (if t == tok@ { 1nat } else { 0nat }) by {}
            assert forall|t: Seq<char>| occurrences(ti, t) > 0 implies exists|a: int| 0 <= a < out@.len() && #[trigger] out@[a].0@ == t by {
                if t == tok@ {
                    match found {
                        Some(f) => { assert(out@[f as int].0@ == t); },
                        None => { assert(out@[out@.len() - 1].0@ == t); },
                    }
                } else {
                    assert(occurrences(prev, t) > 0);
                    let a = choose|a: int| 0 <= a < out0.len() && #[trigger] out0[a].0@ == t;
                    assert(out@[a].0@ == out0[a].0@);
                }
            }
        }
        i += 1;
    }
    assert(ts.take(tokens@.len() as int) =~= ts);
    out
}

/// Whether one of the first `j` counted tokens is `t`.
spec fn counted_before(tf: Seq<(String, u32)>, j: int, t: Seq<char>) -> bool {
    exists|a: int| 0 <= a < j && #[trigger] tf[a].0@ == t
}

proof fn lemma_occurrences_contains(ts: Seq<Seq<char>>, t: Seq<char>)
    ensures
        occurrences(ts, t) > 0 <==> ts.contains(t),
    decreases ts.len(),
{
    if ts.len() > 0 {
        lemma_occurrences_contains(ts.drop_last(), t);
        if ts.drop_last().contains(t) {
            let k = choose|k: int| 0 <= k < ts.drop_last().len() && ts.drop_last()[k] == t;
            assert(ts[k] == t);
        }
        if ts.contains(t) && ts.last() != t {
            let k = choose|k: int| 0 <= k < ts.len() && ts[k] == t;
            assert(ts.drop_last()[k] == t);
        }
    }
}

proof fn lemma_total_tokens_prefix(chunks: Seq<Chunk>, i: int)
    requires
        0 <= i <= chunks.len(),
    ensures
        0 <= total_tokens(chunks.take(i)) <= total_tokens(chunks),
    decreases chunks.len() - i,
{
    if i < chunks.len() {
        lemma_total_tokens_prefix(chunks, i + 1);
        assert(chunks.take(i + 1).drop_last() =~= chunks.take(i));
        lemma_total_tokens_nonneg(chunks.take(i));
    } else {
        assert(chunks.take(i) =~= chunks);
        lemma_total_tokens_nonneg(chunks);
    }
}

proof fn lemma_total_tokens_nonneg(chunks: Seq<Chunk>)
    ensures
        total_tokens(chunks) >= 0,
    decreases chunks.len(),
{
    if chunks.len() > 0 {
        lemma_total_tokens_nonneg(chunks.drop_last());
    }
}

impl TermIndex {
    /// Indexes new documents: each chunk becomes the next document, whose
    /// number of tokens is recorded and whose terms get one posting each with
    /// their frequency in it. Lists in memory grow and count one more
    /// document; lists in the postings file get the posting among the added
    /// ones.
    pub fn add_chunks(&mut self, chunks: &[Chunk])
        requires
            old(self).wf(),
            chunks@.len() <= u32::MAX,
            forall|k: int| 0 <= k < chunks@.len() ==> (#[trigger] chunks@[k]).tokens@.len() <= u32::MAX,
            forall|t: Seq<char>| #[trigger] old(self).has(t) ==> old(self).entry(t).df + chunks@.len() <= u32::MAX,
            old(self).total_len_spec() + total_tokens(chunks@) <= usize::MAX,
        ensures
            final(self).wf(),
            final(self).doc_lens_spec() == old(self).doc_lens_spec() + token_counts(chunks@),
            final(self).total_len_spec() == old(self).total_len_spec() + total_tokens(chunks@),
            forall|t: Seq<char>, disk: Seq<u8>| #[trigger] final(self).postings(t, disk) == old(self).postings(t, disk)
                + doc_postings(chunks@, old(self).doc_lens_spec().len() as int, t),
            forall|t: Seq<char>| #[trigger] final(self).has(t) == (old(self).has(t) || chunk_tokens(chunks@).contains(t)),
            forall|t: Seq<char>| #[trigger] final(self).df_total(t) == old(self).df_total(t) + doc_postings(
                chunks@,
                old(self).doc_lens_spec().len() as int,
                t,
            ).len(),
            final(self).terms_spec().subrange(0, old(self).terms_spec().len() as int) == old(self).terms_spec(),
    {
        let ghost s0 = *self;
        let ghost base = self.doc_lens@.len() as int;
        let n = chunks.len();
        let mut i: usize = 0;
        proof {
            assert(chunks@.take(0) =~= Seq::<Chunk>::empty());
            assert(self.doc_lens@ =~= s0.doc_lens@ + token_counts(chunks@.take(0)));
            assert(self.terms_spec().subrange(0, s0.terms_spec().len() as int) =~= s0.terms_spec());
            lemma_total_tokens_prefix(chunks@, 0);
        }
        while i < n
            invariant
                n == chunks@.len(),
                n <= u32::MAX,
                forall|k: int| 0 <= k < chunks@.len() ==> (#[trigger] chunks@[k]).tokens@.len() <= u32::MAX,
                s0.total_len_spec() + total_tokens(chunks@) <= usize::MAX,
                base == s0.doc_lens@.len(),
                i <= n,
                self.wf(),
                self.doc_lens@ == s0.doc_lens@ + token_counts(chunks@.take(i as int)),
                self.total_len == s0.total_len + total_tokens(chunks@.take(i as int)),
                forall|t: Seq<char>, disk: Seq<u8>| #[trigger] self.postings(t, disk) == s0.postings(t, disk)
                    + doc_postings(chunks@.take(i as int), base, t),
                forall|t: Seq<char>| #[trigger] self.has(t) == (s0.has(t) || chunk_tokens(chunks@.take(i as int)).contains(t)),
                forall|t: Seq<char>| #[trigger] self.df_total(t) == s0.df_total(t) + doc_postings(chunks@.take(i as int), base, t).len(),
                forall|t: Seq<char>| #[trigger] self.has(t) ==> self.entry(t).df + (n - i) <= u32::MAX,
                self.terms_spec().subrange(0, s0.terms_spec().len() as int) == s0.terms_spec(),
                s0.terms_spec().len() <= self.terms_spec().len(),
            decreases n - i,
        {
            let toks = &chunks[i].tokens;
            let id = self.doc_lens.len() as u32;
            proof {
                lemma_total_tokens_prefix(chunks@, i + 1);
                assert(chunks@.take(i + 1).drop_last() =~= chunks@.take(i as int));
                assert(chunks@.take(i + 1).last() == chunks@[i as int]);
            }
            let ghost pre = *self;
            self.doc_lens.push(toks.len());
            self.total_len = self.total_len + toks.len();
            proof {
                assert(self.doc_lens@ =~= s0.doc_lens@ + token_counts(chunks@.take(i + 1)));
            }
            let tf = count_terms(toks);
            let ghost mid = *self;
            let ghost ti = chunks@.take(i as int);
            proof {
                assert forall|t: Seq<char>, disk: Seq<u8>| #[trigger] self.postings(t, disk) == s0.postings(t, disk)
                    + doc_postings(ti, base, t) + if counted_before(tf@, 0, t) {
                        seq![(id, occurrences(string_views(toks@), t) as u32)]
                    } else {
                        Seq::empty()
                    } by {
                    assert(self.postings(t, disk) == pre.postings(t, disk));
                    assert(!counted_before(tf@, 0, t));
                    assert(self.postings(t, disk) =~= s0.postings(t, disk) + doc_postings(ti, base, t) + Seq::<(u32, u32)>::empty());
                }
                assert forall|t: Seq<char>| #[trigger] self.has(t) == (s0.has(t) || chunk_tokens(ti).contains(t)
                    || counted_before(tf@, 0, t)) by {
                    assert(self.has(t) == pre.has(t));
                    assert(!counted_before(tf@, 0, t));
                }
                assert forall|t: Seq<char>| #[trigger] self.df_total(t) == s0.df_total(t) + doc_postings(ti, base, t).len()
                    + if counted_before(tf@, 0, t) { 1int } else { 0int } by {
                    assert(self.df_total(t) == pre.df_total(t));
                    assert(!counted_before(tf@, 0, t));
                }
                assert forall|t: Seq<char>| #[trigger] self.has(t) implies self.entry(t).df + (n - i) - (if counted_before(
                    tf@,
                    0,
                    t,
                ) { 1int } else { 0int }) <= u32::MAX by {
                    assert(self.has(t) == pre.has(t));
                    if self.has(t) {
                        assert(self.entry(t) == pre.entry(t));
                    }
                    assert(!counted_before(tf@, 0, t));
                }
            }
            let mut j: usize = 0;
            while j < tf.len()
                invariant
                    toks@ == chunks@[i as int].tokens@,
                    i < n,
                    n == chunks@.len(),
                    n <= u32::MAX,
                    id == (base + i) as u32,
                    ti == chunks@.take(i as int),
                    forall|a: int, b: int| 0 <= a < b < tf@.len() ==> #[trigger] tf@[a].0@ != #[trigger] tf@[b].0@,
                    forall|a: int| 0 <= a < tf@.len() ==> (#[trigger] tf@[a]).1 == occurrences(string_views(toks@), tf@[a].0@),
                    j <= tf.len(),
                    self.wf(),
                    self.doc_lens@ == mid.doc_lens@,
                    self.total_len == mid.total_len,
                    forall|t: Seq<char>, disk: Seq<u8>| #[trigger] self.postings(t, disk) == s0.postings(t, disk)
                        + doc_postings(ti, base, t) + if counted_before(tf@, j as int, t) {
                            seq![(id, occurrences(string_views(toks@), t) as u32)]
                        } else {
                            Seq::empty()
                        },
                    forall|t: Seq<char>| #[trigger] self.has(t) == (s0.has(t) || chunk_tokens(ti).contains(t)
                        || counted_before(tf@, j as int, t)),
                    forall|t: Seq<char>| #[trigger] self.df_total(t) == s0.df_total(t) + doc_postings(ti, base, t).len()
                        + if counted_before(tf@, j as int, t) { 1int } else { 0int },
                    forall|t: Seq<char>| #[trigger] self.has(t) ==> self.entry(t).df + (n - i) - (if counted_before(
                        tf@,
                        j as int,
                        t,
                    ) { 1int } else { 0int }) <= u32::MAX,
                    self.terms_spec().subrange(0, s0.terms_spec().len() as int) == s0.terms_spec(),
                    s0.terms_spec().len() <= self.terms_spec().len(),
                decreases tf.len() - j,
            {
                let term = &tf[j].0;
                let freq = tf[j].1;
                proof {
                    assert(tf@[j as int].0 == *term);
                    if counted_before(tf@, j as int, term@) {
                        let a = choose|a: int| 0 <= a < j && #[trigger] tf@[a].0@ == term@;
                        assert(tf@[a].0@ != tf@[j as int].0@);
                    }
                    assert(!counted_before(tf@, j as int, term@));
                    assert(self.has(term@) ==> self.entry(term@).df + (n - i) <= u32::MAX);
                }
                let ghost before = *self;
                self.add_posting(term, id, freq);
                proof {
                    assert forall|t: Seq<char>| #[trigger] counted_before(tf@, j + 1, t) == (counted_before(tf@, j as int, t)
                        || t == term@) by {
                        if t == term@ {
                            assert(tf@[j as int].0@ == t);
                        }
                        if counted_before(tf@, j + 1, t) && t != term@ {
                            let a = choose|a: int| 0 <= a < j + 1 && #[trigger] tf@[a].0@ == t;
                            assert(a < j);
                        }
                    }
                    assert forall|t: Seq<char>, disk: Seq<u8>| #[trigger] self.postings(t, disk) == s0.postings(t, disk)
                        + doc_postings(ti, base, t) + if counted_before(tf@, j + 1, t) {
                            seq![(id, occurrences(string_views(toks@), t) as u32)]
                        } else {
                            Seq::empty()
                        } by {
                        if t == term@ {
                            assert(before.postings(t, disk) == s0.postings(t, disk) + doc_postings(ti, base, t));
                            assert(self.postings(t, disk) =~= s0.postings(t, disk) + doc_postings(ti, base, t)
                                + seq![(id, occurrences(string_views(toks@), t) as u32)]);
                        } else {
                            assert(self.postings(t, disk) == before.postings(t, disk));
                        }
                    }
                    assert forall|t: Seq<char>| #[trigger] self.has(t) implies self.entry(t).df + (n - i) - (if counted_before(
                        tf@,
                        j + 1,
                        t,
                    ) { 1int } else { 0int }) <= u32::MAX by {
                        if t != term@ {
                            assert(before.has(t));
                            assert(self.entry(t) == before.entry(t));
                        }
                        if t == term@ {
                            if before.has(term@) {
                                assert(before.entry(term@).df + (n - i) <= u32::MAX);
                            }
                        }
                    }
                    assert(self.terms_spec().subrange(0, s0.terms_spec().len() as int) =~= s0.terms_spec());
                }
                j += 1;
            }
            proof {
                let tv = string_views(toks@);
                let t1 = chunks@.take(i + 1);
                assert(t1.drop_last() == ti);
                assert(t1.last() == chunks@[i as int]);
                assert forall|t: Seq<char>| #[trigger] counted_before(tf@, tf@.len() as int, t) == (occurrences(tv, t) > 0) by {
                    if counted_before(tf@, tf@.len() as int, t) {
                        let a = choose|a: int| 0 <= a < tf@.len() && #[trigger] tf@[a].0@ == t;
                        assert(tf@[a].1 == occurrences(tv, t));
                    }
                }
                assert forall|t: Seq<char>, disk: Seq<u8>| #[trigger] self.postings(t, disk) == s0.postings(t, disk)
                    + doc_postings(t1, base, t) by {
                    if occurrences(tv, t) > 0 {
                        assert(doc_postings(t1, base, t) == doc_postings(ti, base, t).push(((base + t1.len() - 1) as u32, occurrences(tv, t) as u32)));
                        assert(self.postings(t, disk) =~= s0.postings(t, disk) + doc_postings(t1, base, t));
                    } else {
                        assert(self.postings(t, disk) =~= s0.postings(t, disk) + doc_postings(t1, base, t));
                    }
                }
                assert forall|t: Seq<char>| #[trigger] self.has(t) == (s0.has(t) || chunk_tokens(t1).contains(t)) by {
                    lemma_occurrences_contains(tv, t);
                    assert(chunk_tokens(t1) == chunk_tokens(ti) + tv);
                    if chunk_tokens(t1).contains(t) {
                        let k = choose|k: int| 0 <= k < chunk_tokens(t1).len() && chunk_tokens(t1)[k] == t;
                        if k < chunk_tokens(ti).len() {
                            assert(chunk_tokens(ti)[k] == t);
                        } else {
                            assert(tv[k - chunk_tokens(ti).len()] == t);
                        }
                    }
                    if chunk_tokens(ti).contains(t) {
                        let k = choose|k: int| 0 <= k < chunk_tokens(ti).len() && chunk_tokens(ti)[k] == t;
                        assert(chunk_tokens(t1)[k] == t);
                    }
                    if tv.contains(t) {
                        let k = choose|k: int| 0 <= k < tv.len() && tv[k] == t;
                        assert(chunk_tokens(t1)[chunk_tokens(ti).len() + k] == t);
                    }
                }
                assert forall|t: Seq<char>| #[trigger] self.df_total(t) == s0.df_total(t) + doc_postings(t1, base, t).len() by {}
            }
            i += 1;
        }
        proof {
            assert(chunks@.take(n as int) =~= chunks@);
        }
    }

    /// The index of `chunks`, numbered from 0: every term of the chunks with
    /// its postings in memory.
    pub fn build(chunks: &[Chunk]) -> (r: Self)
        requires
            chunks@.len() <= u32::MAX,
            forall|k: int| 0 <= k < chunks@.len() ==> (#[trigger] chunks@[k]).tokens@.len() <= u32::MAX,
            total_tokens(chunks@) <= usize::MAX,
        ensures
            r.wf(),
            r.doc_lens_spec() == token_counts(chunks@),
            r.total_len_spec() == total_tokens(chunks@),
            forall|t: Seq<char>, disk: Seq<u8>| #[trigger] r.postings(t, disk) == doc_postings(chunks@, 0, t),
            forall|t: Seq<char>| #[trigger] r.has(t) == chunk_tokens(chunks@).contains(t),
            forall|t: Seq<char>| #[trigger] r.df_total(t) == doc_postings(chunks@, 0, t).len(),
    {
        let mut r = TermIndex::new();
        r.add_chunks(chunks);
        proof {
            assert(Seq::<usize>::empty() + token_counts(chunks@) =~= token_counts(chunks@));
            assert forall|t: Seq<char>, disk: Seq<u8>| #[trigger] r.postings(t, disk) == doc_postings(chunks@, 0, t) by {
                assert(Seq::<(u32, u32)>::empty() + doc_postings(chunks@, 0, t) =~= doc_postings(chunks@, 0, t));
            }
        }
        r
    }
}

/// Whether `add_chunks` can index `chunks`: their number and each one's
/// number of tokens fit in a `u32`, no document frequency would pass
/// `u32::MAX`, and the total number of tokens fits in a `usize`.
pub open spec fn can_add_spec(ix: TermIndex, chunks: Seq<Chunk>) -> bool {
    &&& chunks.len() <= u32::MAX
    &&& forall|k: int| 0 <= k < chunks.len() ==> (#[trigger] chunks[k]).tokens@.len() <= u32::MAX
    &&& forall|t: Seq<char>| #[trigger] ix.has(t) ==> ix.entry(t).df + chunks.len() <= u32::MAX
    &&& ix.total_len_spec() + total_tokens(chunks) <= usize::MAX
}

impl TermIndex {
    /// Indexes `chunks` when `add_chunks` can; returns whether it did.
    pub fn add_chunks_checked(&mut self, chunks: &[Chunk]) -> (r: bool)
        requires
            old(self).wf(),
        ensures
            r == can_add_spec(*old(self), chunks@),
            !r ==> *final(self) == *old(self),
            r ==> {
                &&& final(self).wf()
                &&& final(self).doc_lens_spec() == old(self).doc_lens_spec() + token_counts(chunks@)
                &&& final(self).total_len_spec() == old(self).total_len_spec() + total_tokens(chunks@)
                &&& forall|t: Seq<char>, disk: Seq<u8>| #[trigger] final(self).postings(t, disk) == old(self).postings(t, disk)
                    + doc_postings(chunks@, old(self).doc_lens_spec().len() as int, t)
                &&& forall|t: Seq<char>| #[trigger] final(self).has(t) == (old(self).has(t) || chunk_tokens(chunks@).contains(t))
                &&& forall|t: Seq<char>| #[trigger] final(self).df_total(t) == old(self).df_total(t) + doc_postings(
                    chunks@,
                    old(self).doc_lens_spec().len() as int,
                    t,
                ).len()
                &&& final(self).terms_spec().subrange(0, old(self).terms_spec().len() as int) == old(self).terms_spec()
            },
    {
        if chunks.len() > 0xffff_ffff {
            return false;
        }
        let mut k: usize = 0;
        let mut total: usize = self.total_len;
        let mut fits = true;
        while k < chunks.len()
            invariant
                k <= chunks.len(),
                fits ==> total == self.total_len + total_tokens(chunks@.take(k as int)),
                fits ==> forall|j: int| 0 <= j < k ==> (#[trigger] chunks@[j]).tokens@.len() <= u32::MAX,
                !fits ==> !can_add_spec(*self, chunks@),
            decreases chunks.len() - k,
        {
            proof {
                assert(chunks@.take(k + 1).drop_last() =~= chunks@.take(k as int));
                lemma_total_tokens_prefix(chunks@, k + 1);
            }
            if fits {
                let c = chunks[k].tokens.len();
                if c > 0xffff_ffff || total > usize::MAX - c {
                    fits = false;
                    proof {
                        if c <= 0xffff_ffff {
                            lemma_total_tokens_prefix(chunks@, k + 1);
                        }
                    }
                } else {
                    total = total + c;
                }
            }
            k += 1;
        }
        if !fits {
            return false;
        }
        assert(chunks@.take(chunks@.len() as int) =~= chunks@);
        let limit: u64 = 0xffff_ffff - chunks.len() as u64;
        let mut e: usize = 0;
        while e < self.entries.len()
            invariant
                self.wf(),
                e <= self.entries.len(),
                limit == u32::MAX - chunks@.len(),
                forall|j: int| 0 <= j < e ==> (#[trigger] self.entries@[j]).df <= limit,
            decreases self.entries.len() - e,
        {
            if self.entries[e].df as u64 > limit {
                proof {
                    let t = self.keys@[e as int]@;
                    assert(self.has(t));
                    assert(self.entry(t) == self.entries@[e as int]);
                }
                return false;
            }
            e += 1;
        }
        proof {
            assert forall|t: Seq<char>| #[trigger] self.has(t) implies self.entry(t).df + chunks@.len() <= u32::MAX by {
                let s = self.slots@[t] as int;
                assert(self.entries@[s].df <= limit);
            }
        }
        self.add_chunks(chunks);
        true
    }

    /// Records `entry` as the entry of `term`, replacing any entry it had and
    /// dropping any postings added to it.
    pub fn set_entry(&mut self, term: String, entry: TermEntry)
        requires
            old(self).wf(),
        ensures
            final(self).wf(),
            forall|t: Seq<char>| #[trigger] final(self).has(t) == (old(self).has(t) || t == term@),
            final(self).entry(term@) == entry,
            final(self).added_spec(term@) == Seq::<(u32, u32)>::empty(),
            forall|t: Seq<char>| t != term@ && old(self).has(t) ==> #[trigger] final(self).entry(t) == old(self).entry(t)
                && final(self).added_spec(t) == old(self).added_spec(t),
            final(self).terms_spec() == if old(self).has(term@) {
                old(self).terms_spec()
            } else {
                old(self).terms_spec().push(term@)
            },
            final(self).doc_lens_spec() == old(self).doc_lens_spec(),
            final(self).total_len_spec() == old(self).total_len_spec(),
    {
        match self.slots.get(term.as_str()) {
            Some(s) => {
                let idx = *s;
                self.entries.set(idx, entry);
                self.added.set(idx, Vec::new());
                proof {
                    assert forall|i: int|
                        0 <= i < self.entries@.len() && (#[trigger] self.entries@[i]).postings is Some implies self.added@[i]@.len()
                            == 0 by {
                        if i != idx {
                            assert(old(self).entries@[i] == self.entries@[i]);
                        }
                    }
                    assert forall|i: int| 0 <= i < self.keys@.len() implies #[trigger] self.slots@.contains_key(
                        self.keys@[i]@,
                    ) && self.slots@[self.keys@[i]@] == i by {
                        assert(old(self).slots@.contains_key(old(self).keys@[i]@));
                    }
                    assert forall|t: Seq<char>| t != term@ && old(self).has(t) implies #[trigger] self.entry(t) == old(self).entry(t)
                        && self.added_spec(t) == old(self).added_spec(t) by {
                        let j = self.slots@[t] as int;
                        assert(j != idx);
                    }
                }
            },
            None => {
                let n = self.keys.len();
                self.slots.insert(term.clone(), n);
                self.keys.push(term);
                self.entries.push(entry);
                self.added.push(Vec::new());
                proof {
                    assert(string_views(self.keys@) =~= string_views(old(self).keys@).push(self.keys@[n as int]@));
                    assert forall|i: int, j: int|
                        0 <= i < j < self.keys@.len() implies #[trigger] self.keys@[i]@ != #[trigger] self.keys@[j]@ by {
                        if j == n {
                            assert(old(self).slots@.contains_key(old(self).keys@[i]@));
                        } else {
                            assert(old(self).keys@[i] == self.keys@[i]);
                            assert(old(self).keys@[j] == self.keys@[j]);
                        }
                    }
                    assert forall|i: int| 0 <= i < self.keys@.len() implies #[trigger] self.slots@.contains_key(
                        self.keys@[i]@,
                    ) && self.slots@[self.keys@[i]@] == i by {
                        if i < n {
                            assert(old(self).keys@[i] == self.keys@[i]);
                            assert(old(self).slots@.contains_key(old(self).keys@[i]@));
                        }
                    }
                    assert forall|t: Seq<char>| #[trigger] self.slots@.contains_key(t) implies {
                        let s = self.slots@[t] as int;
                        0 <= s < self.keys@.len() && self.keys@[s]@ == t
                    } by {
                        if t != self.keys@[n as int]@ {
                            assert(old(self).slots@.contains_key(t));
                            let s = old(self).slots@[t] as int;
                            assert(old(self).keys@[s] == self.keys@[s]);
                        }
                    }
                    assert forall|t: Seq<char>| t != term@ && old(self).has(t) implies #[trigger] self.entry(t) == old(self).entry(t)
                        && self.added_spec(t) == old(self).added_spec(t) by {
                        let j = self.slots@[t] as int;
                        assert(j < n);
                    }
                    assert(self.added_spec(self.keys@[n as int]@) =~= Seq::<(u32, u32)>::empty());
                }
            },
        }
    }

    /// The index of a saved keyword index: every term with the place of its
    /// list in the postings file, and the documents' token counts. The terms
    /// are distinct, as the keys of the saved map are.
    pub fn from_persist(terms: Vec<(String, TermMeta)>, doc_lens: Vec<usize>, total_len: usize) -> (r: Self)
        requires
            forall|a: int, b: int| 0 <= a < b < terms@.len() ==> #[trigger] terms@[a].0@ != #[trigger] terms@[b].0@,
        ensures
            r.wf(),
            r.doc_lens_spec() == doc_lens@,
            r.total_len_spec() == total_len,
            forall|t: Seq<char>| #[trigger] r.has(t) == names_before(terms@, terms@.len() as int, t),
            forall|t: Seq<char>| #[trigger] r.has(t) ==> r.entry(t).postings is None && r.added_spec(t).len() == 0,
            forall|k: int| 0 <= k < terms@.len() ==> {
                let e = r.entry(#[trigger] terms@[k].0@);
                e.df == terms@[k].1.df && e.offset == terms@[k].1.offset && e.len == terms@[k].1.len
            },
    {
        let mut r = TermIndex::new();
        let mut i: usize = 0;
        while i < terms.len()
            invariant
                i <= terms.len(),
                forall|a: int, b: int| 0 <= a < b < terms@.len() ==> #[trigger] terms@[a].0@ != #[trigger] terms@[b].0@,
                r.wf(),
                forall|t: Seq<char>| #[trigger] r.has(t) == names_before(terms@, i as int, t),
                forall|t: Seq<char>| #[trigger] r.has(t) ==> r.entry(t).postings is None && r.added_spec(t).len() == 0,
                forall|k: int| 0 <= k < i ==> {
                    let e = r.entry(#[trigger] terms@[k].0@);
                    e.df == terms@[k].1.df && e.offset == terms@[k].1.offset && e.len == terms@[k].1.len
                },
            decreases terms.len() - i,
        {
            let name = terms[i].0.clone();
            let m = &terms[i].1;
            let ghost before = r;
            r.set_entry(name, TermEntry { df: m.df, postings: None, offset: m.offset, len: m.len });
            proof {
                assert forall|t: Seq<char>| #[trigger] r.has(t) == names_before(terms@, i + 1, t) by {
                    if t == terms@[i as int].0@ {
                        assert(terms@[i as int].0@ == t);
                    } else {
                        if names_before(terms@, i + 1, t) {
                            let k = choose|k: int| 0 <= k < i + 1 && #[trigger] terms@[k].0@ == t;
                            assert(k < i);
                        }
                    }
                }
                assert forall|k: int| 0 <= k < i + 1 implies {
                    let e = r.entry(#[trigger] terms@[k].0@);
                    e.df == terms@[k].1.df && e.offset == terms@[k].1.offset && e.len == terms@[k].1.len
                } by {
                    if k < i {
                        assert(terms@[k].0@ != terms@[i as int].0@);
                        assert(names_before(terms@, i as int, terms@[k].0@));
                        assert(before.has(terms@[k].0@));
                    }
                }
            }
            i += 1;
        }
        let ghost r0 = r;
        r.doc_lens = doc_lens;
        r.total_len = total_len;
        proof {
            assert forall|t: Seq<char>| #[trigger] r.has(t) == r0.has(t) by {}
            assert forall|t: Seq<char>| r.has(t) implies #[trigger] r.entry(t) == r0.entry(t) && r.added_spec(t) == r0.added_spec(t) by {}
            assert forall|k: int| 0 <= k < terms@.len() implies {
                let e = r.entry(#[trigger] terms@[k].0@);
                e.df == terms@[k].1.df && e.offset == terms@[k].1.offset && e.len == terms@[k].1.len
            } by {
                assert(r0.entry(terms@[k].0@) == r.entry(terms@[k].0@));
            }
        }
        r
    }

    /// Reads every term's list from the bytes of the postings file into
    /// memory, as loading a saved index without mapping the file does.
    pub fn load_postings(&mut self, buf: &[u8])
        requires
            old(self).wf(),
            forall|t: Seq<char>| #[trigger] old(self).has(t) ==> old(self).added_spec(t).len() == 0,
        ensures
            final(self).wf(),
            forall|t: Seq<char>| #[trigger] final(self).has(t) == old(self).has(t),
            forall|t: Seq<char>| #[trigger] final(self).has(t) ==> final(self).entry(t).postings is Some
                && final(self).entry(t).postings.unwrap()@ == postings_from_bytes(buf@, old(self).entry(t))
                && final(self).entry(t).df == old(self).entry(t).df
                && final(self).entry(t).offset == 0
                && final(self).entry(t).len == postings_from_bytes(buf@, old(self).entry(t)).len(),
            forall|t: Seq<char>, disk: Seq<u8>| #[trigger] final(self).postings(t, disk) == if old(self).has(t) {
                postings_at(buf@, old(self).entry(t).offset as int, old(self).entry(t).len as int)
            } else {
                Seq::empty()
            },
            final(self).terms_spec() == old(self).terms_spec(),
            final(self).doc_lens_spec() == old(self).doc_lens_spec(),
            final(self).total_len_spec() == old(self).total_len_spec(),
    {
        let ghost s0 = *self;
        let mut i: usize = 0;
        proof {
            assert forall|j: int| 0 <= j < self.entries@.len() implies self.added@[j]@.len() == 0 by {
                let t = self.keys@[j]@;
                assert(self.has(t));
            }
        }
        while i < self.entries.len()
            invariant
                i <= self.entries.len(),
                self.slots == s0.slots,
                self.keys == s0.keys,
                self.added == s0.added,
                self.doc_lens == s0.doc_lens,
                self.total_len == s0.total_len,
                self.entries@.len() == s0.entries@.len(),
                s0.wf(),
                forall|j: int| 0 <= j < self.entries@.len() ==> self.added@[j]@.len() == 0,
                forall|j: int| 0 <= j < i ==> (#[trigger] self.entries@[j]).postings is Some
                    && self.entries@[j].postings.unwrap()@ == postings_from_bytes(buf@, s0.entries@[j])
                    && self.entries@[j].df == s0.entries@[j].df
                    && self.entries@[j].offset == 0
                    && self.entries@[j].len == postings_from_bytes(buf@, s0.entries@[j]).len(),
                forall|j: int| i <= j < self.entries@.len() ==> #[trigger] self.entries@[j] == s0.entries@[j],
            decreases self.entries.len() - i,
        {
            let off = self.entries[i].offset;
            let len = self.entries[i].len;
            let df = self.entries[i].df;
            let p = postings_from_raw(buf, off, len);
            let n = p.len() as u32;
            self.entries.set(i, TermEntry { df, postings: Some(p), offset: 0, len: n });
            i += 1;
        }
        proof {
            assert forall|t: Seq<char>, disk: Seq<u8>| #[trigger] self.postings(t, disk) == if s0.has(t) {
                postings_at(buf@, s0.entry(t).offset as int, s0.entry(t).len as int)
            } else {
                Seq::empty()
            } by {
                if s0.has(t) {
                    let j = s0.slots@[t] as int;
                    assert(self.added_spec(t) =~= Seq::<(u32, u32)>::empty());
                    assert(self.postings(t, disk) =~= postings_at(buf@, s0.entry(t).offset as int, s0.entry(t).len as int));
                } else {
                    assert(self.postings(t, disk) =~= Seq::<(u32, u32)>::empty());
                }
            }
        }
    }

    /// The metadata of every term, as the saved index records it: document
    /// frequency and the place of its list in the postings file.
    pub fn term_metas(&self) -> (r: Vec<(String, TermMeta)>)
        requires
            self.wf(),
        ensures
            r@.len() == self.terms_spec().len(),
            forall|k: int| 0 <= k < r@.len() ==> {
                &&& (#[trigger] r@[k]).0@ == self.terms_spec()[k]
                &&& r@[k].1.df == self.entry(r@[k].0@).df
                &&& r@[k].1.offset == self.entry(r@[k].0@).offset
                &&& r@[k].1.len == self.entry(r@[k].0@).len
            },
    {
        let mut out: Vec<(String, TermMeta)> = Vec::new();
        let mut i: usize = 0;
        while i < self.keys.len()
            invariant
                self.wf(),
                i <= self.keys.len(),
                out@.len() == i,
                forall|k: int| 0 <= k < i ==> {
                    &&& (#[trigger] out@[k]).0@ == self.terms_spec()[k]
                    &&& out@[k].1.df == self.entry(out@[k].0@).df
                    &&& out@[k].1.offset == self.entry(out@[k].0@).offset
                    &&& out@[k].1.len == self.entry(out@[k].0@).len
                },
            decreases self.keys.len() - i,
        {
            let e = &self.entries[i];
            proof {
                assert(self.slots@.contains_key(self.keys@[i as int]@));
                assert(self.slots@[self.keys@[i as int]@] == i);
                assert(self.terms_spec()[i as int] == self.keys@[i as int]@);
            }
            out.push((self.keys[i].clone(), TermMeta { df: e.df, offset: e.offset, len: e.len }));
            i += 1;
        }
        out
    }

    /// The postings file of the index and the metadata of its terms, in the
    /// index's term order: each term's full list (read from `disk` where it
    /// lies there) is written after the previous one, and its metadata records
    /// where, with its length as document frequency.
    pub fn persist_layout(&self, disk: &[u8]) -> (r: (Vec<(String, TermMeta)>, Vec<u8>))
        requires
            self.wf(),
            8 * total_postings(term_lists(*self, disk@)) <= u64::MAX,
        ensures
            r.0@.len() == self.terms_spec().len(),
            forall|k: int| 0 <= k < r.0@.len() ==> (#[trigger] r.0@[k]).0@ == self.terms_spec()[k],
            metas_view(r.0@.map_values(|p: (String, TermMeta)| p.1)) == layout_metas(term_lists(*self, disk@), 0),
            r.1@ == encode_all(term_lists(*self, disk@)),
    {
        let mut lists: Vec<Vec<(u32, u32)>> = Vec::new();
        let mut i: usize = 0;
        while i < self.keys.len()
            invariant
                self.wf(),
                i <= self.keys.len(),
                lists_view(lists@) == term_lists(*self, disk@).take(i as int),
            decreases self.keys.len() - i,
        {
            let p = self.collect_postings(self.keys[i].as_str(), disk);
            let ghost prev = lists@;
            lists.push(p);
            proof {
                assert(self.terms_spec()[i as int] == self.keys@[i as int]@);
                assert(term_lists(*self, disk@)[i as int] == self.postings(self.keys@[i as int]@, disk@));
                assert(lists_view(prev).len() == i);
                assert(prev.len() == i);
                assert(lists@ == prev.push(p));
                assert forall|j: int| 0 <= j < i implies lists_view(lists@)[j] == lists_view(prev)[j] by {
                    assert(lists@[j] == prev[j]);
                }
                assert(lists_view(lists@) =~= term_lists(*self, disk@).take(i + 1));
            }
            i += 1;
        }
        assert(term_lists(*self, disk@).take(self.keys@.len() as int) =~= term_lists(*self, disk@));
        let (metas, bytes) = layout_postings(lists.as_slice());
        proof {
            lemma_metas_len(lists_view(lists@), 0);
            assert(metas_view(metas@).len() == metas@.len());
        }
        let mut named: Vec<(String, TermMeta)> = Vec::new();
        let mut k: usize = 0;
        while k < metas.len()
            invariant
                self.wf(),
                metas@.len() == self.keys@.len(),
                k <= metas.len(),
                named@.len() == k,
                forall|j: int| 0 <= j < k ==> (#[trigger] named@[j]).0@ == self.terms_spec()[j] && named@[j].1 == metas@[j],
            decreases metas.len() - k,
        {
            let m = &metas[k];
            named.push((self.keys[k].clone(), TermMeta { df: m.df, offset: m.offset, len: m.len }));
            k += 1;
        }
        proof {
            assert(metas_view(named@.map_values(|p: (String, TermMeta)| p.1)) =~= metas_view(metas@));
        }
        (named, bytes)
    }
}

/// Whether one of the first `i` names of `terms` is `t`.
pub open spec fn names_before(terms: Seq<(String, TermMeta)>, i: int, t: Seq<char>) -> bool {
    exists|k: int| 0 <= k < i && #[trigger] terms[k].0@ == t
}

/// The list read from the postings file `buf` at the place `e` records.
pub open spec fn postings_from_bytes(buf: Seq<u8>, e: TermEntry) -> Seq<(u32, u32)> {
    postings_at(buf, e.offset as int, e.len as int)
}

/// The full lists of the index's terms, in its term order.
pub open spec fn term_lists(ix: TermIndex, disk: Seq<u8>) -> Seq<Seq<(u32, u32)>> {
    ix.terms_spec().map_values(|t: Seq<char>| ix.postings(t, disk))
}

/// Saving an index and reading its postings file back gives every term its
/// full list: the list written for term `i` is read back, unchanged, from
/// the offset and length recorded for it.
pub proof fn lemma_saved_lists_read_back(ix: TermIndex, disk: Seq<u8>, i: int)
    requires
        0 <= i < ix.terms_spec().len(),
        forall|t: Seq<char>| #[trigger] ix.postings(t, disk).len() <= u32::MAX,
    ensures
        postings_at(
            encode_all(term_lists(ix, disk)),
            layout_metas(term_lists(ix, disk), 0)[i].1,
            layout_metas(term_lists(ix, disk), 0)[i].2 as int,
        ) == ix.postings(ix.terms_spec()[i], disk),
{
    let lists = term_lists(ix, disk);
    assert forall|j: int| 0 <= j < lists.len() implies #[trigger] lists[j].len() <= u32::MAX by {
        assert(lists[j] == ix.postings(ix.terms_spec()[j], disk));
    }
    lemma_layout_roundtrip(lists, i);
}

proof fn lemma_doc_postings_concat(c1: Seq<Chunk>, c2: Seq<Chunk>, t: Seq<char>)
    ensures
        doc_postings(c1 + c2, 0, t) == doc_postings(c1, 0, t) + doc_postings(c2, c1.len() as int, t),
    decreases c2.len(),
{
    if c2.len() == 0 {
        assert(c1 + c2 =~= c1);
        assert(doc_postings(c1, 0, t) + doc_postings(c2, c1.len() as int, t) =~= doc_postings(c1, 0, t));
    } else {
        let c = c1 + c2;
        assert(c.drop_last() =~= c1 + c2.drop_last());
        assert(c.last() == c2.last());
        lemma_doc_postings_concat(c1, c2.drop_last(), t);
        let a = doc_postings(c1, 0, t);
        let b = doc_postings(c2.drop_last(), c1.len() as int, t);
        let n = occurrences(string_views(c2.last().tokens@), t);
        if n > 0 {
            let x = ((c1.len() + c2.len() - 1) as u32, n as u32);
            assert(doc_postings(c, 0, t) == (a + b).push(x));
            assert(doc_postings(c2, c1.len() as int, t) == b.push(x));
            assert((a + b).push(x) =~= a + b.push(x));
        }
    }
}

proof fn lemma_total_tokens_concat(c1: Seq<Chunk>, c2: Seq<Chunk>)
    ensures
        total_tokens(c1 + c2) == total_tokens(c1) + total_tokens(c2),
    decreases c2.len(),
{
    if c2.len() == 0 {
        assert(c1 + c2 =~= c1);
    } else {
        assert((c1 + c2).drop_last() =~= c1 + c2.drop_last());
        lemma_total_tokens_concat(c1, c2.drop_last());
    }
}

proof fn lemma_chunk_tokens_concat(c1: Seq<Chunk>, c2: Seq<Chunk>)
    ensures
        chunk_tokens(c1 + c2) == chunk_tokens(c1) + chunk_tokens(c2),
    decreases c2.len(),
{
    if c2.len() == 0 {
        assert(c1 + c2 =~= c1);
        assert(chunk_tokens(c1) + chunk_tokens(c2) =~= chunk_tokens(c1));
    } else {
        assert((c1 + c2).drop_last() =~= c1 + c2.drop_last());
        lemma_chunk_tokens_concat(c1, c2.drop_last());
        let a = chunk_tokens(c1);
        let b = chunk_tokens(c2.drop_last());
        let l = string_views(c2.last().tokens@);
        assert((a + b) + l =~= a + (b + l));
    }
}

proof fn lemma_concat_contains(a: Seq<Seq<char>>, b: Seq<Seq<char>>, t: Seq<char>)
    ensures
        (a + b).contains(t) == (a.contains(t) || b.contains(t)),
{
    if (a + b).contains(t) {
        let m = choose|m: int| 0 <= m < (a + b).len() && (a + b)[m] == t;
        if m < a.len() {
            assert(a[m] == t);
        } else {
            assert(b[m - a.len()] == t);
        }
    }
    if a.contains(t) {
        let m = choose|m: int| 0 <= m < a.len() && a[m] == t;
        assert((a + b)[m] == t);
    }
    if b.contains(t) {
        let m = choose|m: int| 0 <= m < b.len() && b[m] == t;
        assert((a + b)[a.len() + m] == t);
    }
}

/// Adding chunks to an index built from other chunks gives the index built
/// from all the chunks at once: `small` is what `build` gave for `c1`,
/// `grown` is `small` after `add_chunks(c2)`, and `whole` is what `build`
/// gave for `c1 + c2`; then they agree on every term's presence, postings
/// and document frequency, and on the documents' token counts and total.
pub proof fn lemma_add_equals_build(small: TermIndex, grown: TermIndex, whole: TermIndex, c1: Seq<Chunk>, c2: Seq<Chunk>)
    requires
        small.doc_lens_spec() == token_counts(c1),
        small.total_len_spec() == total_tokens(c1),
        forall|t: Seq<char>, disk: Seq<u8>| #[trigger] small.postings(t, disk) == doc_postings(c1, 0, t),
        forall|t: Seq<char>| #[trigger] small.has(t) == chunk_tokens(c1).contains(t),
        forall|t: Seq<char>| #[trigger] small.df_total(t) == doc_postings(c1, 0, t).len(),
        grown.doc_lens_spec() == small.doc_lens_spec() + token_counts(c2),
        grown.total_len_spec() == small.total_len_spec() + total_tokens(c2),
        forall|t: Seq<char>, disk: Seq<u8>| #[trigger] grown.postings(t, disk) == small.postings(t, disk)
            + doc_postings(c2, small.doc_lens_spec().len() as int, t),
        forall|t: Seq<char>| #[trigger] grown.has(t) == (small.has(t) || chunk_tokens(c2).contains(t)),
        forall|t: Seq<char>| #[trigger] grown.df_total(t) == small.df_total(t) + doc_postings(
            c2,
            small.doc_lens_spec().len() as int,
            t,
        ).len(),
        whole.doc_lens_spec() == token_counts(c1 + c2),
        whole.total_len_spec() == total_tokens(c1 + c2),
        forall|t: Seq<char>, disk: Seq<u8>| #[trigger] whole.postings(t, disk) == doc_postings(c1 + c2, 0, t),
        forall|t: Seq<char>| #[trigger] whole.has(t) == chunk_tokens(c1 + c2).contains(t),
        forall|t: Seq<char>| #[trigger] whole.df_total(t) == doc_postings(c1 + c2, 0, t).len(),
    ensures
        grown.doc_lens_spec() == whole.doc_lens_spec(),
        grown.total_len_spec() == whole.total_len_spec(),
        forall|t: Seq<char>, disk: Seq<u8>| #[trigger] grown.postings(t, disk) == whole.postings(t, disk),
        forall|t: Seq<char>| #[trigger] grown.has(t) == whole.has(t),
        forall|t: Seq<char>| #[trigger] grown.df_total(t) == whole.df_total(t),
{
    assert(token_counts(c1 + c2) =~= token_counts(c1) + token_counts(c2));
    assert(small.doc_lens_spec().len() == c1.len());
    lemma_total_tokens_concat(c1, c2);
    lemma_chunk_tokens_concat(c1, c2);
    assert forall|t: Seq<char>, disk: Seq<u8>| #[trigger] grown.postings(t, disk) == whole.postings(t, disk) by {
        lemma_doc_postings_concat(c1, c2, t);
    }
    assert forall|t: Seq<char>| #[trigger] grown.has(t) == whole.has(t) by {
        lemma_concat_contains(chunk_tokens(c1), chunk_tokens(c2), t);
    }
    assert forall|t: Seq<char>| #[trigger] grown.df_total(t) == whole.df_total(t) by {
        lemma_doc_postings_concat(c1, c2, t);
    }
}

/// A saved index, loaded again, gives every term the postings it had: when
/// `saved` and `bytes` are what `persist_layout` returned for `ix` and `r` is
/// what `from_persist` built from `saved`, then every term of `ix` has in `r`,
/// read from `bytes`, the postings it had in `ix`, read from `disk`.
pub proof fn lemma_reloaded_index_keeps_postings(
    ix: TermIndex,
    disk: Seq<u8>,
    saved: Seq<(String, TermMeta)>,
    bytes: Seq<u8>,
    r: TermIndex,
    i: int,
)
    requires
        0 <= i < ix.terms_spec().len(),
        forall|t: Seq<char>| #[trigger] ix.postings(t, disk).len() <= u32::MAX,
        saved.len() == ix.terms_spec().len(),
        forall|k: int| 0 <= k < saved.len() ==> (#[trigger] saved[k]).0@ == ix.terms_spec()[k],
        metas_view(saved.map_values(|p: (String, TermMeta)| p.1)) == layout_metas(term_lists(ix, disk), 0),
        bytes == encode_all(term_lists(ix, disk)),
        forall|t: Seq<char>| #[trigger] r.has(t) == names_before(saved, saved.len() as int, t),
        forall|t: Seq<char>| #[trigger] r.has(t) ==> r.entry(t).postings is None && r.added_spec(t).len() == 0,
        forall|k: int| 0 <= k < saved.len() ==> {
            let e = r.entry(#[trigger] saved[k].0@);
            e.df == saved[k].1.df && e.offset == saved[k].1.offset && e.len == saved[k].1.len
        },
    ensures
        r.postings(ix.terms_spec()[i], bytes) == ix.postings(ix.terms_spec()[i], disk),
{
    let t = ix.terms_spec()[i];
    let m = saved.map_values(|p: (String, TermMeta)| p.1);
    assert(saved[i].0@ == t);
    assert(names_before(saved, saved.len() as int, t));
    assert(r.has(t));
    assert(metas_view(m)[i] == layout_metas(term_lists(ix, disk), 0)[i]);
    assert(m[i] == saved[i].1);
    lemma_saved_lists_read_back(ix, disk, i);
    assert(r.stored(t, bytes) == ix.postings(t, disk));
    assert(r.postings(t, bytes) =~= r.stored(t, bytes));
}

proof fn lemma_layout_df(lists: Seq<Seq<(u32, u32)>>, start: int, i: int)
    requires
        0 <= i < lists.len(),
    ensures
        layout_metas(lists, start)[i].0 == lists[i].len() as u32,
    decreases lists.len(),
{
    lemma_metas_len(lists, start);
    if i < lists.len() - 1 {
        lemma_layout_df(lists.drop_last(), start, i);
    }
}

proof fn lemma_has_iff_term(ix: TermIndex, t: Seq<char>)
    requires
        ix.wf(),
    ensures
        ix.has(t) == ix.terms_spec().contains(t),
        ix.has(t) ==> exists|i: int| 0 <= i < ix.terms_spec().len() && #[trigger] ix.terms_spec()[i] == t,
{
    if ix.has(t) {
        let s = ix.slots@[t] as int;
        assert(ix.terms_spec()[s] == t);
    }
    if ix.terms_spec().contains(t) {
        let i = choose|i: int| 0 <= i < ix.terms_spec().len() && ix.terms_spec()[i] == t;
        assert(ix.keys@[i]@ == t);
    }
}

/// Saving an index and loading it back gives the same index: when `saved`
/// and `bytes` are what `persist_layout` returned for `ix` (reading `disk`),
/// `reopened` is what `from_persist` built from `saved` with `ix`'s document
/// lengths and total, and `loaded` is `reopened` after `load_postings(bytes)`,
/// then both have exactly `ix`'s terms, its document lengths and total, and
/// give every term the postings it had in `ix` (`reopened` reading them from
/// `bytes`, `loaded` from memory); the reopened index counts for each term as
/// many documents as its postings list holds.
pub proof fn lemma_saved_index_loads_back(
    ix: TermIndex,
    disk: Seq<u8>,
    saved: Seq<(String, TermMeta)>,
    bytes: Seq<u8>,
    reopened: TermIndex,
    loaded: TermIndex,
)
    requires
        ix.wf(),
        forall|t: Seq<char>| #[trigger] ix.postings(t, disk).len() <= u32::MAX,
        saved.len() == ix.terms_spec().len(),
        forall|k: int| 0 <= k < saved.len() ==> (#[trigger] saved[k]).0@ == ix.terms_spec()[k],
        metas_view(saved.map_values(|p: (String, TermMeta)| p.1)) == layout_metas(term_lists(ix, disk), 0),
        bytes == encode_all(term_lists(ix, disk)),
        reopened.doc_lens_spec() == ix.doc_lens_spec(),
        reopened.total_len_spec() == ix.total_len_spec(),
        forall|t: Seq<char>| #[trigger] reopened.has(t) == names_before(saved, saved.len() as int, t),
        forall|t: Seq<char>| #[trigger] reopened.has(t) ==> reopened.entry(t).postings is None
            && reopened.added_spec(t).len() == 0,
        forall|k: int| 0 <= k < saved.len() ==> {
            let e = reopened.entry(#[trigger] saved[k].0@);
            e.df == saved[k].1.df && e.offset == saved[k].1.offset && e.len == saved[k].1.len
        },
        forall|t: Seq<char>| #[trigger] loaded.has(t) == reopened.has(t),
        forall|t: Seq<char>, d: Seq<u8>| #[trigger] loaded.postings(t, d) == if reopened.has(t) {
            postings_at(bytes, reopened.entry(t).offset as int, reopened.entry(t).len as int)
        } else {
            Seq::empty()
        },
        loaded.doc_lens_spec() == reopened.doc_lens_spec(),
        loaded.total_len_spec() == reopened.total_len_spec(),
    ensures
        forall|t: Seq<char>| #[trigger] reopened.has(t) == ix.has(t),
        forall|t: Seq<char>| #[trigger] loaded.has(t) == ix.has(t),
        forall|t: Seq<char>| #[trigger] reopened.postings(t, bytes) == ix.postings(t, disk),
        forall|t: Seq<char>, d: Seq<u8>| #[trigger] loaded.postings(t, d) == ix.postings(t, disk),
        forall|t: Seq<char>| ix.has(t) ==> #[trigger] reopened.df_total(t) == ix.postings(t, disk).len(),
        loaded.doc_lens_spec() == ix.doc_lens_spec(),
        loaded.total_len_spec() == ix.total_len_spec(),
{
    assert forall|t: Seq<char>| #[trigger] reopened.has(t) == ix.has(t) && reopened.postings(t, bytes) == ix.postings(
        t,
        disk,
    ) && (ix.has(t) ==> reopened.df_total(t) == ix.postings(t, disk).len()) by {
        lemma_has_iff_term(ix, t);
        if ix.has(t) {
            let i = choose|i: int| 0 <= i < ix.terms_spec().len() && #[trigger] ix.terms_spec()[i] == t;
            assert(saved[i].0@ == t);
            assert(names_before(saved, saved.len() as int, t));
            lemma_reloaded_index_keeps_postings(ix, disk, saved, bytes, reopened, i);
            let m = saved.map_values(|p: (String, TermMeta)| p.1);
            assert(metas_view(m)[i] == layout_metas(term_lists(ix, disk), 0)[i]);
            assert(m[i] == saved[i].1);
            lemma_layout_df(term_lists(ix, disk), 0, i);
            assert(term_lists(ix, disk)[i] == ix.postings(t, disk));
        } else {
            if reopened.has(t) {
                let k = choose|k: int| 0 <= k < saved.len() && #[trigger] saved[k].0@ == t;
                assert(ix.terms_spec()[k] == t);
                assert(ix.terms_spec().contains(t));
            }
            assert(reopened.postings(t, bytes) =~= Seq::<(u32, u32)>::empty());
            assert(ix.postings(t, disk) =~= Seq::<(u32, u32)>::empty());
        }
    }
    assert forall|t: Seq<char>, d: Seq<u8>| #[trigger] loaded.postings(t, d) == ix.postings(t, disk) by {
        assert(reopened.has(t) == ix.has(t));
        assert(reopened.postings(t, bytes) == ix.postings(t, disk));
        if reopened.has(t) {
            assert(reopened.postings(t, bytes) =~= postings_at(
                bytes,
                reopened.entry(t).offset as int,
                reopened.entry(t).len as int,
            ));
        }
    }
    assert forall|t: Seq<char>| #[trigger] loaded.has(t) == ix.has(t) by {
        assert(reopened.has(t) == ix.has(t));
    }
}

} // verus!
