//! The records of the ingestion pipeline and the layout of its data
//! directories: where raw pages, processed chunks, datasets and index
//! files live under a root directory.
use vstd::prelude::*;
use crate::chars::{clone_strings, extend_chars, str_chars, string_from_chars};
use crate::numfmt::{hex_bytes, push_decimal_padded, push_hex, decimal, zero_pad};

verus! {

/// The MD5 digest of a byte sequence, as `md5::compute` returns it.
pub uninterp spec fn md5_digest(data: Seq<u8>) -> Seq<u8>;

/// `md5::compute`: the 16-byte MD5 digest of `data`. The contract names the
/// result and states its length.
#[verifier::external_body]
pub(crate) fn md5_compute(data: &[u8]) -> (r: [u8; 16])
    ensures
        r@ == md5_digest(data@),
        r@.len() == 16,
{
    md5::compute(data).0
}

/// A crawled page.
#[derive(Clone, Debug)]
pub struct RawPage {
    pub id: String,
    pub url: String,
    pub title: String,
    pub text: String,
    pub links: Vec<String>,
}

/// The identifier of a page: the lowercase hexadecimal MD5 digest of the
/// UTF-8 bytes of its URL.
pub open spec fn page_id(url: Seq<char>) -> Seq<char> {
    hex_bytes(md5_digest(vstd::utf8::encode_utf8(url)))
}

impl RawPage {
    /// A page record whose identifier is derived from its URL.
    pub fn new(url: &str, title: &str, text: &str, links: &[String]) -> (r: Self)
        ensures
            r.id@ == page_id(url@),
            r.url@ == url@,
            r.title@ == title@,
            r.text@ == text@,
            r.links@ == links@,
    {
        let digest = md5_compute(url.as_bytes());
        let mut id: Vec<char> = Vec::new();
        push_hex(&mut id, &digest);
        RawPage {
            id: string_from_chars(&id),
            url: String::from_str(url),
            title: String::from_str(title),
            text: String::from_str(text),
            links: clone_strings(links),
        }
    }
}

/// A chunk of a crawled page, ready for indexing.
#[derive(Clone, Debug)]
pub struct ProcessedChunk {
    pub id: String,
    pub text: String,
    pub tokens: Vec<String>,
    pub source_url: String,
}

/// Settings of the ingestion pipeline.
#[derive(Clone, Debug)]
pub struct PipelineConfig {
    pub crawl_limit: usize,
    pub max_depth: usize,
    pub timeout_ms: u64,
    pub storage_path: String,
}

impl PipelineConfig {
    /// The default settings: 10000 pages, depth 3, 5 s timeout, under "./data".
    pub fn default() -> (r: Self)
        ensures
            r.crawl_limit == 10000,
            r.max_depth == 3,
            r.timeout_ms == 5000,
            r.storage_path@ == "./data"@,
    {
        PipelineConfig {
            crawl_limit: 10000,
            max_depth: 3,
            timeout_ms: 5000,
            storage_path: String::from_str("./data"),
        }
    }
}

/// `base` joined with the relative path `comp`, with one '/' between them.
pub open spec fn path_join(base: Seq<char>, comp: Seq<char>) -> Seq<char> {
    if base.len() == 0 || base.last() == '/' {
        base + comp
    } else {
        base.push('/') + comp
    }
}

/// Joins a directory and a relative path.
pub fn join_path(base: &str, comp: &str) -> (r: String)
    ensures
        r@ == path_join(base@, comp@),
{
    let mut v = str_chars(base);
    let c = str_chars(comp);
    if v.len() > 0 && v[v.len() - 1] != '/' {
        v.push('/');
    }
    extend_chars(&mut v, &c);
    string_from_chars(&v)
}

/// The directories and files of the ingestion pipeline under a root.
pub struct StorageManager {
    root: String,
}

impl StorageManager {
    /// The root directory.
    pub closed spec fn root(&self) -> Seq<char> {
        self.root@
    }

    /// A manager for the data under `root`.
    pub fn new(root: &str) -> (r: Self)
        ensures
            r.root() == root@,
    {
        StorageManager { root: String::from_str(root) }
    }

    /// The root directory.
    pub fn root_path(&self) -> (r: String)
        ensures
            r@ == self.root(),
    {
        self.root.clone()
    }

    /// `<root>/raw/pages.jsonl`.
    pub fn raw_path(&self) -> (r: String)
        ensures
            r@ == path_join(path_join(self.root(), "raw"@), "pages.jsonl"@),
    {
        let d = join_path(self.root.as_str(), "raw");
        join_path(d.as_str(), "pages.jsonl")
    }

    /// `<root>/processed/chunks.jsonl`.
    pub fn processed_path(&self) -> (r: String)
        ensures
            r@ == path_join(path_join(self.root(), "processed"@), "chunks.jsonl"@),
    {
        let d = join_path(self.root.as_str(), "processed");
        join_path(d.as_str(), "chunks.jsonl")
    }

    /// `<root>/index/dataset.json`.
    pub fn index_path(&self) -> (r: String)
        ensures
            r@ == path_join(path_join(self.root(), "index"@), "dataset.json"@),
    {
        let d = join_path(self.root.as_str(), "index");
        join_path(d.as_str(), "dataset.json")
    }

    /// The three directories that hold the pipeline's files.
    pub fn dirs(&self) -> (r: Vec<String>)
        ensures
            r@.len() == 3,
            r@[0]@ == path_join(self.root(), "raw"@),
            r@[1]@ == path_join(self.root(), "processed"@),
            r@[2]@ == path_join(self.root(), "index"@),
    {
        let mut v: Vec<String> = Vec::new();
        v.push(join_path(self.root.as_str(), "raw"));
        v.push(join_path(self.root.as_str(), "processed"));
        v.push(join_path(self.root.as_str(), "index"));
        v
    }
}

/// The directory of shard `index` under `out_root`: `shard_` followed by the
/// index written with at least four digits.
pub open spec fn shard_dir_name(index: nat) -> Seq<char> {
    "shard_"@ + zero_pad(decimal(index), 4)
}

/// `<out_root>/shard_NNNN`.
pub fn shard_dir(out_root: &str, index: usize) -> (r: String)
    ensures
        r@ == path_join(out_root@, shard_dir_name(index as nat)),
{
    let mut name = str_chars("shard_");
    push_decimal_padded(&mut name, index, 4);
    let n = string_from_chars(&name);
    join_path(out_root, n.as_str())
}

} // verus!
