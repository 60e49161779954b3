//! The word-level tests behind answer extraction and ranking: the subject
//! words of a factual question, sentences too short to answer, how many query
//! tokens a sentence holds, and whether a query occurs as a phrase.
use vstd::prelude::*;
use crate::chars::{str_chars, str_eq};
use crate::text::{split_whitespace, string_views, tokenize, tokens, words, Lang};

verus! {

/// Words of a question that say nothing of its subject.
pub open spec fn question_words() -> Seq<Seq<char>> {
    seq![
        "what"@, "who"@, "when"@, "where"@, "why"@, "how"@, "define"@, "meaning"@, "is"@, "are"@, "was"@,
        "were"@, "the"@, "a"@, "an"@, "of"@, "to"@,
    ]
}

/// The query tokens that are not question words, in order.
pub open spec fn subject_of(ts: Seq<Seq<char>>) -> Seq<Seq<char>>
    decreases ts.len(),
{
    if ts.len() == 0 {
        Seq::empty()
    } else {
        let prev = subject_of(ts.drop_last());
        if question_words().contains(ts.last()) { prev } else { prev.push(ts.last()) }
    }
}

/// The subject of a factual question: its tokens without question words.
pub fn factual_subject(query_tokens: &[String]) -> (r: Vec<String>)
    ensures
        string_views(r@) == subject_of(string_views(query_tokens@)),
{
    let list: Vec<&str> = vec![
        "what", "who", "when", "where", "why", "how", "define", "meaning", "is", "are", "was", "were", "the",
        "a", "an", "of", "to",
    ];
    proof {
        assert(crate::text::str_views(list@) =~= question_words());
    }
    let ghost ts = string_views(query_tokens@);
    let mut out: Vec<String> = Vec::new();
    let mut i: usize = 0;
    assert(ts.take(0) =~= Seq::<Seq<char>>::empty());
    while i < query_tokens.len()
        invariant
            ts == string_views(query_tokens@),
            crate::text::str_views(list@) == question_words(),
            i <= query_tokens.len(),
            string_views(out@) == subject_of(ts.take(i as int)),
        decreases query_tokens.len() - i,
    {
        assert(ts.take(i + 1).drop_last() =~= ts.take(i as int));
        assert(ts.take(i + 1).last() == query_tokens@[i as int]@);
        if !crate::text::list_contains(&list, query_tokens[i].as_str()) {
            let ghost before = out@;
            out.push(query_tokens[i].clone());
            assert(string_views(out@) =~= string_views(before).push(query_tokens@[i as int]@));
        }
        i += 1;
    }
    assert(ts.take(ts.len() as int) =~= ts);
    out
}

/// Whether a sentence has fewer than five words, too few to answer.
pub fn is_trivial_sentence(sentence: &str) -> (r: bool)
    ensures
        r == (words(sentence@).len() < 5),
{
    let v = str_chars(sentence);
    let ws = split_whitespace(&v);
    ws.len() < 5
}

/// How many of `qs` occur in `ts`.
pub open spec fn present_count(qs: Seq<Seq<char>>, ts: Seq<Seq<char>>) -> nat
    decreases qs.len(),
{
    if qs.len() == 0 {
        0
    } else {
        present_count(qs.drop_last(), ts) + if ts.contains(qs.last()) { 1nat } else { 0nat }
    }
}

/// How many query tokens occur among the tokens of a sentence: the keyword
/// overlap of the sentence is this over the number of query tokens.
pub fn overlap_count(sentence: &str, query_tokens: &[String]) -> (r: usize)
    ensures
        r == present_count(string_views(query_tokens@), tokens(sentence@, Lang::En)),
{
    let st = tokenize(sentence);
    let ghost qs = string_views(query_tokens@);
    let mut n: usize = 0;
    let mut i: usize = 0;
    assert(qs.take(0) =~= Seq::<Seq<char>>::empty());
    while i < query_tokens.len()
        invariant
            qs == string_views(query_tokens@),
            string_views(st@) == tokens(sentence@, Lang::En),
            i <= query_tokens.len(),
            n == present_count(qs.take(i as int), string_views(st@)),
            n <= i,
        decreases query_tokens.len() - i,
    {
        assert(qs.take(i + 1).drop_last() =~= qs.take(i as int));
        assert(qs.take(i + 1).last() == query_tokens@[i as int]@);
        let mut found = false;
        let mut k: usize = 0;
        while k < st.len()
            invariant
                i < query_tokens.len(),
                k <= st.len(),
                found == exists|j: int| 0 <= j < k && string_views(st@)[j] == query_tokens@[i as int]@,
            decreases st.len() - k,
        {
            if str_eq(st[k].as_str(), query_tokens[i].as_str()) {
                assert(string_views(st@)[k as int] == query_tokens@[i as int]@);
                found = true;
            }
            k += 1;
        }
        if found {
            n += 1;
        }
        i += 1;
    }
    assert(qs.take(qs.len() as int) =~= qs);
    n
}

/// Whether `q` occurs in `ts` as consecutive tokens starting at `i`.
pub open spec fn phrase_at(ts: Seq<Seq<char>>, q: Seq<Seq<char>>, i: int) -> bool {
    0 <= i && i + q.len() <= ts.len() && ts.subrange(i, i + q.len()) == q
}

/// Whether the query tokens occur in `tokens` as a phrase (an empty query
/// never does).
pub fn phrase_match(tokens: &[String], query_tokens: &[String]) -> (r: bool)
    ensures
        r == (query_tokens@.len() > 0 && exists|i: int| phrase_at(string_views(tokens@), string_views(query_tokens@), i)),
{
    let ghost ts = string_views(tokens@);
    let ghost q = string_views(query_tokens@);
    if query_tokens.len() == 0 || tokens.len() < query_tokens.len() {
        proof {
            if query_tokens.len() > 0 {
                assert forall|i: int| !phrase_at(ts, q, i) by {}
            }
        }
        return false;
    }
    let last = tokens.len() - query_tokens.len();
    let mut i: usize = 0;
    while i <= last
        invariant
            ts == string_views(tokens@),
            q == string_views(query_tokens@),
            last == tokens.len() - query_tokens.len(),
            query_tokens.len() > 0,
            forall|j: int| 0 <= j < i ==> !phrase_at(ts, q, j),
        decreases last + 1 - i,
    {
        let mut ok = true;
        let mut j: usize = 0;
        while j < query_tokens.len()
            invariant
                i <= last,
                last == tokens.len() - query_tokens.len(),
                j <= query_tokens.len(),
                ok == forall|m: int| 0 <= m < j ==> tokens@[i + m]@ == query_tokens@[m]@,
            decreases query_tokens.len() - j,
        {
            if !str_eq(tokens[i + j].as_str(), query_tokens[j].as_str()) {
                ok = false;
            }
            j += 1;
        }
        if ok {
            assert(ts.subrange(i as int, i + q.len()) =~= q);
            assert(phrase_at(ts, q, i as int));
            return true;
        }
        proof {
            let m = choose|m: int| 0 <= m < query_tokens@.len() && tokens@[i + m]@ != query_tokens@[m]@;
            assert(ts.subrange(i as int, i + q.len())[m] != q[m]);
        }
        if i == last {
            proof {
                assert forall|j: int| !phrase_at(ts, q, j) by {
                    if j > i {}
                }
            }
            return false;
        }
        i += 1;
    }
    false
}

} // verus!
