//! The commands of the pipeline's command line and the reading of their
//! arguments.
use vstd::prelude::*;
use crate::chars::{str_chars, str_eq, string_from_range};
use crate::numfmt::{parse_usize, parsed_usize};
use crate::text::string_views;
use crate::wiki::starts_with;

verus! {

/// A command of the pipeline.
#[derive(Debug)]
pub enum Command {
    Crawl { seed: String, limit: Option<usize> },
    Process,
    Index,
    BuildIndex { dataset: String, out: String },
    LoadIndex { dir: String },
    MergeIndex { dir: String, update: String },
    Delete { dir: String, ids: Vec<String> },
    Compact { dir: String, out: String },
    Pack { dataset: String, out: String, max_docs: usize, lang: String, download_base: Option<String> },
    ImportWiki { dump: String, out: String, limit: Option<usize> },
    ImportOsm { pbf: String, out: String, limit: Option<usize> },
    ImportWarc { warc: String, out: String, limit: Option<usize> },
}

/// The position of the first argument equal to `flag`, if any.
pub open spec fn flag_position(args: Seq<Seq<char>>, flag: Seq<char>) -> Option<int>
    decreases args.len(),
{
    if args.len() == 0 {
        None
    } else {
        match flag_position(args.drop_last(), flag) {
            Some(i) => Some(i),
            None => if args.last() == flag { Some(args.len() - 1) } else { None },
        }
    }
}

/// The argument after the first `flag`, if both are there.
pub open spec fn arg_after(args: Seq<Seq<char>>, flag: Seq<char>) -> Option<Seq<char>> {
    match flag_position(args, flag) {
        Some(i) => if i + 1 < args.len() { Some(args[i + 1]) } else { None },
        None => None,
    }
}

proof fn lemma_flag_position_prefix(args: Seq<Seq<char>>, flag: Seq<char>, k: int)
    requires
        0 <= k <= args.len(),
        flag_position(args.take(k), flag) is Some,
    ensures
        flag_position(args, flag) == flag_position(args.take(k), flag),
        0 <= flag_position(args, flag).unwrap() < k,
    decreases args.len() - k,
{
    lemma_flag_position_range(args.take(k), flag);
    if k < args.len() {
        assert(args.take(k + 1).drop_last() =~= args.take(k));
        lemma_flag_position_prefix(args, flag, k + 1);
    } else {
        assert(args.take(k) =~= args);
    }
}

proof fn lemma_flag_position_range(args: Seq<Seq<char>>, flag: Seq<char>)
    ensures
        match flag_position(args, flag) {
            Some(i) => 0 <= i < args.len() && args[i] == flag,
            None => true,
        },
    decreases args.len(),
{
    if args.len() > 0 {
        lemma_flag_position_range(args.drop_last(), flag);
    }
}

/// The argument that follows the first occurrence of `flag`, if any.
pub fn value_after(args: &[String], flag: &str) -> (r: Option<String>)
    ensures
        match r {
            Some(v) => arg_after(string_views(args@), flag@) == Some(v@),
            None => arg_after(string_views(args@), flag@) is None,
        },
{
    let ghost a = string_views(args@);
    let mut i: usize = 0;
    assert(a.take(0) =~= Seq::<Seq<char>>::empty());
    while i < args.len()
        invariant
            a == string_views(args@),
            i <= args.len(),
            flag_position(a.take(i as int), flag@) is None,
        decreases args.len() - i,
    {
        assert(a.take(i + 1).drop_last() =~= a.take(i as int));
        if str_eq(args[i].as_str(), flag) {
            proof {
                assert(a.take(i + 1).last() == a[i as int]);
                assert(flag_position(a.take(i + 1), flag@) == Some(i as int));
                lemma_flag_position_prefix(a, flag@, i + 1);
            }
            if i + 1 < args.len() {
                return Some(args[i + 1].clone());
            }
            return None;
        }
        i += 1;
    }
    assert(a.take(a.len() as int) =~= a);
    None
}

/// The number after the first `flag`, if it is there and parses.
pub fn usize_after(args: &[String], flag: &str) -> (r: Option<usize>)
    ensures
        r == match arg_after(string_views(args@), flag@) {
            Some(v) => parsed_usize(v),
            None => None,
        },
{
    match value_after(args, flag) {
        Some(v) => parse_usize(v.as_str()),
        None => None,
    }
}

/// The identifiers of a delete command: every argument that starts with
/// `doc:`, without it.
pub open spec fn doc_ids_of(args: Seq<Seq<char>>) -> Seq<Seq<char>>
    decreases args.len(),
{
    if args.len() == 0 {
        Seq::empty()
    } else {
        let prev = doc_ids_of(args.drop_last());
        let a = args.last();
        if starts_with(a, "doc:"@) { prev.push(a.subrange(4, a.len() as int)) } else { prev }
    }
}

/// The identifiers named by `doc:<id>` arguments.
pub fn doc_ids(args: &[String]) -> (r: Vec<String>)
    ensures
        string_views(r@) == doc_ids_of(string_views(args@)),
{
    proof {
        reveal_strlit("doc:");
    }
    let ghost a = string_views(args@);
    let mut out: Vec<String> = Vec::new();
    let mut i: usize = 0;
    assert(a.take(0) =~= Seq::<Seq<char>>::empty());
    while i < args.len()
        invariant
            a == string_views(args@),
            "doc:"@.len() == 4,
            i <= args.len(),
            string_views(out@) == doc_ids_of(a.take(i as int)),
        decreases args.len() - i,
    {
        assert(a.take(i + 1).drop_last() =~= a.take(i as int));
        assert(a.take(i + 1).last() == args@[i as int]@);
        let v = str_chars(args[i].as_str());
        let hit = crate::wiki::range_starts_with(&v, 0, v.len(), "doc:");
        assert(v@.subrange(0, v@.len() as int) =~= v@);
        if hit {
            let ghost before = out@;
            out.push(string_from_range(&v, 4, v.len()));
            assert(string_views(out@) =~= string_views(before).push(out@[before.len() as int]@));
        }
        i += 1;
    }
    assert(a.take(a.len() as int) =~= a);
    out
}

} // verus!
