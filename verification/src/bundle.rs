//! The manifest of a bundle of language packs, its profiles and shards,
//! and the cutting of a dataset into shards of a fixed number of documents.
use vstd::prelude::*;
use crate::processing::Document;
use crate::text::string_views;

verus! {

/// A download profile of a bundle: a name and a size limit.
#[derive(Clone, Debug)]
pub struct BundleProfile {
    pub name: String,
    pub max_bytes: u64,
}

/// A shard of a pack: where it lies, how many documents and bytes it holds.
#[derive(Clone, Debug)]
pub struct ShardInfo {
    pub name: String,
    pub path: String,
    pub docs: usize,
    pub bytes: u64,
}

/// The manifest of a bundle.
#[derive(Clone, Debug)]
pub struct BundleManifest {
    pub version: u32,
    pub language: String,
    pub profiles: Vec<BundleProfile>,
    pub shards: Vec<ShardInfo>,
}

impl BundleManifest {
    /// The manifest that stands for one that does not parse: version 1,
    /// English, no profile and no shard.
    pub fn fallback() -> (r: Self)
        ensures
            r.version == 1,
            r.language@ == "en"@,
            r.profiles@.len() == 0,
            r.shards@.len() == 0,
    {
        BundleManifest {
            version: 1,
            language: String::from_str("en"),
            profiles: Vec::new(),
            shards: Vec::new(),
        }
    }
}

/// The packs of one language: its code, download profiles and shards.
#[derive(Clone, Debug)]
pub struct LanguagePack {
    pub code: String,
    pub profiles: Vec<BundleProfile>,
    pub shards: Vec<ShardInfo>,
}

/// The manifest of a set of packs: every language with its profiles and
/// shards, and where they can be downloaded.
#[derive(Clone, Debug)]
pub struct PackManifest {
    pub version: u32,
    pub download_base: Option<String>,
    pub languages: Vec<LanguagePack>,
}

/// The position of the first pack of language `code`, if any.
pub open spec fn first_code(langs: Seq<LanguagePack>, code: Seq<char>) -> Option<int>
    decreases langs.len(),
{
    if langs.len() == 0 {
        None
    } else {
        match first_code(langs.drop_last(), code) {
            Some(i) => Some(i),
            None => if langs.last().code@ == code { Some(langs.len() - 1) } else { None },
        }
    }
}

proof fn lemma_first_code_prefix(langs: Seq<LanguagePack>, code: Seq<char>, k: int)
    requires
        0 <= k <= langs.len(),
        first_code(langs.take(k), code) is Some,
    ensures
        first_code(langs, code) == first_code(langs.take(k), code),
    decreases langs.len() - k,
{
    if k < langs.len() {
        assert(langs.take(k + 1).drop_last() =~= langs.take(k));
        lemma_first_code_prefix(langs, code, k + 1);
    } else {
        assert(langs.take(k) =~= langs);
    }
}

impl PackManifest {
    /// The manifest that stands for one that is missing or does not parse:
    /// version 1, no download base and no language.
    pub fn fallback() -> (r: Self)
        ensures
            r.version == 1,
            r.download_base is None,
            r.languages@.len() == 0,
    {
        PackManifest { version: 1, download_base: None, languages: Vec::new() }
    }

    /// Records the packs of one language: they replace those of the first
    /// language with the same code, or are added after the others; a
    /// download base, when given, replaces the recorded one.
    pub fn merge_pack(&mut self, pack: LanguagePack, download_base: Option<String>)
        ensures
            final(self).version == old(self).version,
            final(self).download_base == match download_base {
                Some(b) => Some(b),
                None => old(self).download_base,
            },
            match first_code(old(self).languages@, pack.code@) {
                Some(k) => final(self).languages@ == old(self).languages@.update(k, pack),
                None => final(self).languages@ == old(self).languages@.push(pack),
            },
    {
        if download_base.is_some() {
            self.download_base = download_base;
        }
        let mut i: usize = 0;
        while i < self.languages.len()
            invariant
                i <= self.languages.len(),
                self.languages@ == old(self).languages@,
                self.version == old(self).version,
                self.download_base == match download_base {
                    Some(b) => Some(b),
                    None => old(self).download_base,
                },
                first_code(self.languages@.take(i as int), pack.code@) is None,
            decreases self.languages.len() - i,
        {
            if crate::chars::str_eq(self.languages[i].code.as_str(), pack.code.as_str()) {
                proof {
                    assert(self.languages@.take(i + 1).drop_last() =~= self.languages@.take(i as int));
                    lemma_first_code_prefix(self.languages@, pack.code@, i + 1);
                }
                self.languages.set(i, pack);
                return;
            }
            assert(self.languages@.take(i + 1).drop_last() =~= self.languages@.take(i as int));
            i += 1;
        }
        assert(self.languages@.take(self.languages@.len() as int) =~= self.languages@);
        self.languages.push(pack);
    }
}

/// The language whose shards are exported: the first with code `en`, else
/// the first language, if any.
pub open spec fn export_language(langs: Seq<LanguagePack>) -> Option<int> {
    match first_code(langs, "en"@) {
        Some(i) => Some(i),
        None => if langs.len() > 0 { Some(0) } else { None },
    }
}

/// The names of the shards that have one, in order.
pub open spec fn named_shards(shards: Seq<ShardInfo>) -> Seq<Seq<char>>
    decreases shards.len(),
{
    if shards.len() == 0 {
        Seq::empty()
    } else {
        let prev = named_shards(shards.drop_last());
        if shards.last().name@.len() > 0 { prev.push(shards.last().name@) } else { prev }
    }
}

/// The first index in `langs` of the language `code`, if any.
fn find_code(langs: &Vec<LanguagePack>, code: &str) -> (r: Option<usize>)
    ensures
        match r {
            Some(i) => first_code(langs@, code@) == Some(i as int) && i < langs@.len(),
            None => first_code(langs@, code@) is None,
        },
{
    let mut i: usize = 0;
    while i < langs.len()
        invariant
            i <= langs.len(),
            first_code(langs@.take(i as int), code@) is None,
        decreases langs.len() - i,
    {
        assert(langs@.take(i + 1).drop_last() =~= langs@.take(i as int));
        if crate::chars::str_eq(langs[i].code.as_str(), code) {
            proof {
                lemma_first_code_prefix(langs@, code@, i + 1);
            }
            return Some(i);
        }
        i += 1;
    }
    assert(langs@.take(langs@.len() as int) =~= langs@);
    None
}

/// The names of the shards to export: the named shards of the first
/// language with code `en`, else of the first language, else none.
pub fn export_shard_names(m: &PackManifest) -> (r: Vec<String>)
    ensures
        string_views(r@) == match export_language(m.languages@) {
            Some(i) => named_shards(m.languages@[i].shards@),
            None => Seq::empty(),
        },
{
    proof {
        reveal_strlit("en");
    }
    let idx = match find_code(&m.languages, "en") {
        Some(i) => i,
        None => {
            if m.languages.len() == 0 {
                let empty: Vec<String> = Vec::new();
                assert(string_views(empty@) =~= Seq::<Seq<char>>::empty());
                return empty;
            }
            0
        },
    };
    let shards = &m.languages[idx].shards;
    let mut out: Vec<String> = Vec::new();
    let mut k: usize = 0;
    while k < shards.len()
        invariant
            k <= shards.len(),
            string_views(out@) == named_shards(shards@.take(k as int)),
        decreases shards.len() - k,
    {
        assert(shards@.take(k + 1).drop_last() =~= shards@.take(k as int));
        if crate::chars::str_chars(shards[k].name.as_str()).len() > 0 {
            let ghost before = string_views(out@);
            out.push(String::from_str(shards[k].name.as_str()));
            assert(string_views(out@) =~= before.push(shards@[k as int].name@));
        }
        k += 1;
    }
    assert(shards@.take(shards@.len() as int) =~= shards@);
    out
}

/// Prepares the manifest of exported packs: when there are shards, every
/// profile named `power` of the first language gets the shards' total size
/// as its limit; a download base, when given, replaces the recorded one.
/// Nothing else changes.
pub fn stamp_export_manifest(m: &mut PackManifest, shard_count: usize, total_bytes: u64, download_base: Option<String>)
    ensures
        final(m).version == old(m).version,
        final(m).download_base == match download_base {
            Some(b) => Some(b),
            None => old(m).download_base,
        },
        final(m).languages@.len() == old(m).languages@.len(),
        forall|i: int| 1 <= i < old(m).languages@.len() ==> #[trigger] final(m).languages@[i] == old(m).languages@[i],
        shard_count == 0 || old(m).languages@.len() == 0 ==> final(m).languages@ == old(m).languages@,
        shard_count > 0 && old(m).languages@.len() > 0 ==> {
            let a = old(m).languages@[0];
            let b = final(m).languages@[0];
            &&& b.code == a.code
            &&& b.shards == a.shards
            &&& b.profiles@.len() == a.profiles@.len()
            &&& forall|j: int| 0 <= j < a.profiles@.len() ==> {
                &&& (#[trigger] b.profiles@[j]).name == a.profiles@[j].name
                &&& b.profiles@[j].max_bytes == if a.profiles@[j].name@ == "power"@ {
                    total_bytes
                } else {
                    a.profiles@[j].max_bytes
                }
            }
        },
{
    if download_base.is_some() {
        m.download_base = download_base;
    }
    if shard_count == 0 || m.languages.len() == 0 {
        return;
    }
    let ghost old_langs = m.languages@;
    let mut first = m.languages.remove(0);
    let ghost a = first;
    let mut j: usize = 0;
    while j < first.profiles.len()
        invariant
            j <= first.profiles@.len(),
            first.code == a.code,
            first.shards == a.shards,
            first.profiles@.len() == a.profiles@.len(),
            forall|q: int| j <= q < a.profiles@.len() ==> #[trigger] first.profiles@[q] == a.profiles@[q],
            forall|q: int| 0 <= q < j ==> {
                &&& (#[trigger] first.profiles@[q]).name == a.profiles@[q].name
                &&& first.profiles@[q].max_bytes == if a.profiles@[q].name@ == "power"@ {
                    total_bytes
                } else {
                    a.profiles@[q].max_bytes
                }
            },
        decreases a.profiles@.len() - j,
    {
        if crate::chars::str_eq(first.profiles[j].name.as_str(), "power") {
            first.profiles[j].max_bytes = total_bytes;
        }
        j += 1;
    }
    m.languages.insert(0, first);
    assert(m.languages@.len() == old_langs.len());
    assert forall|i: int| 1 <= i < old_langs.len() implies #[trigger] m.languages@[i] == old_langs[i] by {}
}

/// The download profiles of a pack: `default` up to 1 GB and `power` up to
/// 5 GB.
pub fn default_profiles() -> (r: Vec<BundleProfile>)
    ensures
        r@.len() == 2,
        r@[0].name@ == "default"@ && r@[0].max_bytes == 1_000_000_000,
        r@[1].name@ == "power"@ && r@[1].max_bytes == 5_000_000_000,
{
    let mut v: Vec<BundleProfile> = Vec::new();
    v.push(BundleProfile { name: String::from_str("default"), max_bytes: 1_000_000_000 });
    v.push(BundleProfile { name: String::from_str("power"), max_bytes: 5_000_000_000 });
    v
}

/// Cuts a stream of documents into shards of `max_docs` documents, the last
/// one possibly smaller, numbered from 0.
pub struct ShardPacker {
    buffer: Vec<Document>,
    max_docs: usize,
    index: usize,
}

impl ShardPacker {
    /// The documents waiting for the next shard.
    pub closed spec fn pending(&self) -> Seq<Document> {
        self.buffer@
    }

    /// The number of the next shard.
    pub closed spec fn next_index(&self) -> usize {
        self.index
    }

    /// The number of documents per shard.
    pub closed spec fn size(&self) -> usize {
        self.max_docs
    }

    /// A packer of shards of `max_docs` documents; nothing pending.
    pub fn new(max_docs: usize) -> (r: Self)
        ensures
            r.pending() == Seq::<Document>::empty(),
            r.next_index() == 0,
            r.size() == max_docs,
    {
        ShardPacker { buffer: Vec::new(), max_docs, index: 0 }
    }

    /// Takes a document; when that fills a shard, returns the shard's
    /// documents, which are no longer pending.
    pub fn push(&mut self, doc: Document) -> (r: Option<Vec<Document>>)
        ensures
            final(self).size() == old(self).size(),
            final(self).next_index() == old(self).next_index(),
            match r {
                Some(batch) => old(self).pending().len() + 1 >= old(self).size() && batch@ == old(self).pending().push(doc)
                    && final(self).pending() == Seq::<Document>::empty(),
                None => old(self).pending().len() + 1 < old(self).size() && final(self).pending() == old(self).pending().push(doc),
            },
    {
        self.buffer.push(doc);
        if self.buffer.len() >= self.max_docs {
            let mut batch: Vec<Document> = Vec::new();
            std::mem::swap(&mut batch, &mut self.buffer);
            Some(batch)
        } else {
            None
        }
    }

    /// The number of the shard being written.
    pub fn index(&self) -> (r: usize)
        ensures
            r == self.next_index(),
    {
        self.index
    }

    /// Moves to the next shard number, after a shard was written.
    pub fn advance(&mut self)
        requires
            old(self).next_index() < usize::MAX,
        ensures
            final(self).next_index() == old(self).next_index() + 1,
            final(self).pending() == old(self).pending(),
            final(self).size() == old(self).size(),
    {
        self.index = self.index + 1;
    }

    /// The documents of the last, partial shard, if any.
    pub fn finish(self) -> (r: Option<Vec<Document>>)
        ensures
            match r {
                Some(batch) => batch@ == self.pending() && batch@.len() > 0,
                None => self.pending().len() == 0,
            },
    {
        if self.buffer.len() > 0 {
            Some(self.buffer)
        } else {
            None
        }
    }
}

} // verus!
