//! Evaluation of search quality against a set of queries with known
//! relevant documents and expected answers: the counts behind precision,
//! recall, reciprocal rank and answer accuracy.
use vstd::prelude::*;
use crate::chars::str_eq;
use crate::text::{string_views, tokenize, tokens, Lang};

verus! {

/// A query of an evaluation set.
#[derive(Clone, Debug)]
pub struct EvalQuery {
    pub query: String,
    pub relevant_docs: Vec<String>,
    pub expected_answer: String,
}

/// An evaluation set.
#[derive(Clone, Debug)]
pub struct EvalDataset {
    pub queries: Vec<EvalQuery>,
}

/// How many of `xs` lie in `set`.
pub open spec fn count_in(xs: Seq<Seq<char>>, set: Seq<Seq<char>>) -> nat
    decreases xs.len(),
{
    if xs.len() == 0 {
        0
    } else {
        count_in(xs.drop_last(), set) + if set.contains(xs.last()) { 1nat } else { 0nat }
    }
}

/// Whether `x` is one of `v`.
fn contains_str(v: &[String], x: &str) -> (r: bool)
    ensures
        r == string_views(v@).contains(x@),
{
    let mut i: usize = 0;
    while i < v.len()
        invariant
            i <= v.len(),
            forall|j: int| 0 <= j < i ==> string_views(v@)[j] != x@,
        decreases v.len() - i,
    {
        if str_eq(v[i].as_str(), x) {
            assert(string_views(v@)[i as int] == x@);
            return true;
        }
        i += 1;
    }
    false
}

/// How many of the first `k` ranked identifiers are relevant.
pub fn hits_at_k(relevant: &[String], ranked: &[String], k: usize) -> (r: usize)
    ensures
        r == count_in(string_views(ranked@).take(if k < ranked@.len() { k as int } else { ranked@.len() as int }), string_views(relevant@)),
{
    let n = if k < ranked.len() { k } else { ranked.len() };
    let ghost rv = string_views(ranked@);
    let mut hit: usize = 0;
    let mut i: usize = 0;
    assert(rv.take(0) =~= Seq::<Seq<char>>::empty());
    while i < n
        invariant
            rv == string_views(ranked@),
            n <= ranked.len(),
            i <= n,
            hit == count_in(rv.take(i as int), string_views(relevant@)),
            hit <= i,
        decreases n - i,
    {
        assert(rv.take(i + 1).drop_last() =~= rv.take(i as int));
        assert(rv.take(i + 1).last() == ranked@[i as int]@);
        if contains_str(relevant, ranked[i].as_str()) {
            hit += 1;
        }
        i += 1;
    }
    hit
}

/// The position of the first relevant identifier among the ranked ones, if
/// any.
pub open spec fn first_relevant_spec(relevant: Seq<Seq<char>>, ranked: Seq<Seq<char>>) -> Option<int>
    decreases ranked.len(),
{
    if ranked.len() == 0 {
        None
    } else {
        match first_relevant_spec(relevant, ranked.drop_last()) {
            Some(i) => Some(i),
            None => if relevant.contains(ranked.last()) { Some(ranked.len() - 1) } else { None },
        }
    }
}

/// The position of the first relevant ranked identifier: the reciprocal rank
/// is one over one more than it.
pub fn first_relevant(relevant: &[String], ranked: &[String]) -> (r: Option<usize>)
    ensures
        match r {
            Some(i) => first_relevant_spec(string_views(relevant@), string_views(ranked@)) == Some(i as int),
            None => first_relevant_spec(string_views(relevant@), string_views(ranked@)) is None,
        },
{
    let ghost rv = string_views(ranked@);
    let ghost rel = string_views(relevant@);
    let mut i: usize = 0;
    assert(rv.take(0) =~= Seq::<Seq<char>>::empty());
    while i < ranked.len()
        invariant
            rv == string_views(ranked@),
            rel == string_views(relevant@),
            i <= ranked.len(),
            first_relevant_spec(rel, rv.take(i as int)) is None,
        decreases ranked.len() - i,
    {
        assert(rv.take(i + 1).drop_last() =~= rv.take(i as int));
        assert(rv.take(i + 1).last() == ranked@[i as int]@);
        if contains_str(relevant, ranked[i].as_str()) {
            proof {
                lemma_first_relevant_prefix(rel, rv, i + 1);
            }
            return Some(i);
        }
        i += 1;
    }
    assert(rv.take(rv.len() as int) =~= rv);
    None
}

proof fn lemma_first_relevant_prefix(rel: Seq<Seq<char>>, rv: Seq<Seq<char>>, k: int)
    requires
        0 <= k <= rv.len(),
        first_relevant_spec(rel, rv.take(k)) is Some,
    ensures
        first_relevant_spec(rel, rv) == first_relevant_spec(rel, rv.take(k)),
    decreases rv.len() - k,
{
    if k < rv.len() {
        assert(rv.take(k + 1).drop_last() =~= rv.take(k));
        lemma_first_relevant_prefix(rel, rv, k + 1);
    } else {
        assert(rv.take(k) =~= rv);
    }
}

/// How many distinct identifiers `v` holds.
pub fn distinct_count(v: &[String]) -> (r: usize)
    ensures
        r == string_views(v@).to_set().len(),
{
    let ghost sv = string_views(v@);
    let mut n: usize = 0;
    let mut i: usize = 0;
    assert(sv.take(0).to_set() =~= Set::<Seq<char>>::empty());
    while i < v.len()
        invariant
            sv == string_views(v@),
            i <= v.len(),
            n == sv.take(i as int).to_set().len(),
            n <= i,
            sv.take(i as int).to_set().finite(),
        decreases v.len() - i,
    {
        let seen_before = contains_str(&v[0..i], v[i].as_str());
        proof {
            assert(string_views(v@.subrange(0, i as int)) =~= sv.take(i as int));
            assert(sv.take(i + 1) =~= sv.take(i as int).push(sv[i as int]));
            assert forall|x: Seq<char>| sv.take(i + 1).contains(x) <==> sv.take(i as int).to_set().insert(sv[i as int]).contains(x) by {
                vstd::seq_lib::lemma_seq_contains_after_push(sv.take(i as int), sv[i as int], x);
            }
            assert(sv.take(i + 1).to_set() =~= sv.take(i as int).to_set().insert(sv[i as int]));
            vstd::seq_lib::seq_to_set_is_finite(sv.take(i + 1));
            assert(sv.take(i as int).contains(sv[i as int]) <==> sv.take(i as int).to_set().contains(sv[i as int]));
        }
        if !seen_before {
            n += 1;
        }
        i += 1;
    }
    assert(sv.take(sv.len() as int) =~= sv);
    n
}

/// How many tokens of the expected answer the actual answer holds, and how
/// many tokens the expected answer has: answer accuracy is their ratio.
pub fn answer_hits(expected: &str, actual: &str) -> (r: (usize, usize))
    ensures
        r.0 == count_in(tokens(expected@, Lang::En), tokens(actual@, Lang::En)),
        r.1 == tokens(expected@, Lang::En).len(),
{
    let exp = tokenize(expected);
    let act = tokenize(actual);
    let ghost ev = string_views(exp@);
    let mut hit: usize = 0;
    let mut i: usize = 0;
    assert(ev.take(0) =~= Seq::<Seq<char>>::empty());
    while i < exp.len()
        invariant
            ev == string_views(exp@),
            i <= exp.len(),
            hit == count_in(ev.take(i as int), string_views(act@)),
            hit <= i,
        decreases exp.len() - i,
    {
        assert(ev.take(i + 1).drop_last() =~= ev.take(i as int));
        assert(ev.take(i + 1).last() == exp@[i as int]@);
        if contains_str(act.as_slice(), exp[i].as_str()) {
            hit += 1;
        }
        i += 1;
    }
    assert(ev.take(ev.len() as int) =~= ev);
    (hit, exp.len())
}

} // verus!
