//! Spelling correction of query terms: the edit distance between two
//! words, the buckets of known terms grouped by first character and byte
//! length, and the choice of the closest known term.
use vstd::prelude::*;
use vstd::hash_map::HashMapWithView;
use crate::chars::{str_chars, str_eq, str_len};
use crate::processing::Chunk;
use crate::text::{byte_len, string_views};

verus! {

/// Smallest of three numbers.
pub open spec fn min3(x: nat, y: nat, z: nat) -> nat {
    if x <= y && x <= z {
        x
    } else if y <= z {
        y
    } else {
        z
    }
}

/// Levenshtein distance between two character sequences: the least number
/// of single-character insertions, deletions and substitutions that turn
/// `a` into `b`.
pub open spec fn lev(a: Seq<char>, b: Seq<char>) -> nat
    decreases a.len() + b.len(),
{
    if a.len() == 0 {
        b.len()
    } else if b.len() == 0 {
        a.len()
    } else {
        min3(
            lev(a.drop_last(), b) + 1,
            lev(a, b.drop_last()) + 1,
            lev(a.drop_last(), b.drop_last()) + (if a.last() == b.last() { 0nat } else { 1nat }),
        )
    }
}

/// What `levenshtein(a, b)` returns. The table it fills has one column per
/// byte of `b` but is filled one character of `b` at a time, so the value is
/// the Levenshtein distance when `b` is ASCII (one byte per character), the
/// byte length of `b` when `a` is empty, and 0 otherwise.
pub open spec fn edit_distance(a: Seq<char>, b: Seq<char>) -> nat {
    if a.len() == 0 {
        byte_len(b)
    } else if byte_len(b) == b.len() {
        lev(a, b)
    } else {
        0
    }
}

/// The distance is at most the longer length.
pub proof fn lemma_lev_bound(a: Seq<char>, b: Seq<char>)
    ensures
        lev(a, b) <= if a.len() >= b.len() { a.len() } else { b.len() },
    decreases a.len() + b.len(),
{
    if a.len() > 0 && b.len() > 0 {
        lemma_lev_bound(a.drop_last(), b.drop_last());
    }
}

/// A word is at distance zero from itself.
pub proof fn lemma_lev_self(a: Seq<char>)
    ensures
        lev(a, a) == 0,
    decreases a.len(),
{
    if a.len() > 0 {
        lemma_lev_self(a.drop_last());
    }
}

/// A sequence has at least as many bytes as characters.
pub proof fn lemma_byte_len_ge_len(s: Seq<char>)
    ensures
        byte_len(s) >= s.len(),
    decreases s.len(),
{
    if s.len() > 0 {
        lemma_byte_len_ge_len(s.drop_last());
    }
}

proof fn lemma_lev_step(a: Seq<char>, b: Seq<char>, i: int, j: int)
    requires
        0 <= i < a.len(),
        0 <= j < b.len(),
    ensures
        lev(a.take(i + 1), b.take(j + 1)) == min3(
            lev(a.take(i), b.take(j + 1)) + 1,
            lev(a.take(i + 1), b.take(j)) + 1,
            lev(a.take(i), b.take(j)) + (if a[i] == b[j] { 0nat } else { 1nat }),
        ),
{
    assert(a.take(i + 1).drop_last() =~= a.take(i));
    assert(b.take(j + 1).drop_last() =~= b.take(j));
}

/// Edit distance between `a` and `b`, filled row by row over the characters
/// of `a` in a table with one cell per byte of `b`.
pub fn levenshtein(a: &str, b: &str) -> (r: usize)
    requires
        byte_len(b@) < usize::MAX,
    ensures
        r == edit_distance(a@, b@),
{
    let av = str_chars(a);
    let bv = str_chars(b);
    let blen = str_len(b);
    let m = bv.len();
    proof {
        lemma_byte_len_ge_len(b@);
    }
    let mut prev: Vec<usize> = Vec::new();
    let mut curr: Vec<usize> = Vec::new();
    let mut k: usize = 0;
    while k <= blen
        invariant
            blen < usize::MAX,
            k <= blen + 1,
            prev.len() == k,
            curr.len() == k,
            forall|x: int| 0 <= x < k ==> prev@[x] == x,
            forall|x: int| 0 <= x < k ==> curr@[x] == 0,
        decreases blen + 1 - k,
    {
        prev.push(k);
        curr.push(0);
        k += 1;
    }
    proof {
        assert forall|j: int| 0 <= j <= m implies prev@[j] == lev(av@.take(0), bv@.take(j)) by {
            assert(av@.take(0) =~= Seq::<char>::empty());
        }
    }
    let n = av.len();
    let mut i: usize = 0;
    while i < n
        invariant
            av@ == a@,
            bv@ == b@,
            n == av.len(),
            m == bv.len(),
            blen == byte_len(b@),
            m <= blen < usize::MAX,
            i <= n,
            prev.len() == blen + 1,
            curr.len() == blen + 1,
            forall|j: int| 0 <= j <= m ==> prev@[j] == lev(av@.take(i as int), bv@.take(j)),
            forall|j: int| m < j <= blen ==> prev@[j] == (if i == 0 { j } else { 0 }),
            forall|j: int| m < j <= blen ==> curr@[j] == 0,
        decreases n - i,
    {
        curr.set(0, i + 1);
        proof {
            assert(bv@.take(0) =~= Seq::<char>::empty());
            assert(av@.take(i + 1).len() == i + 1);
        }
        let ca = av[i];
        let mut j: usize = 0;
        while j < m
            invariant
                av@ == a@,
                bv@ == b@,
                n == av.len(),
                m == bv.len(),
                m <= blen < usize::MAX,
                i < n,
                j <= m,
                ca == av@[i as int],
                prev.len() == blen + 1,
                curr.len() == blen + 1,
                forall|x: int| 0 <= x <= m ==> prev@[x] == lev(av@.take(i as int), bv@.take(x)),
                forall|x: int| 0 <= x <= j ==> curr@[x] == lev(av@.take(i + 1), bv@.take(x)),
                forall|x: int| m < x <= blen ==> curr@[x] == 0,
            decreases m - j,
        {
            let cb = bv[j];
            let cost: usize = if ca == cb { 0 } else { 1 };
            let up = prev[j + 1];
            let left = curr[j];
            let diag = prev[j];
            proof {
                lemma_lev_bound(av@.take(i as int), bv@.take(j + 1));
                lemma_lev_bound(av@.take(i as int), bv@.take(j as int));
                lemma_lev_step(av@, bv@, i as int, j as int);
            }
            let m1 = if up <= left { up } else { left };
            let v1 = m1 + 1;
            let v2 = diag + cost;
            let v = if v1 <= v2 { v1 } else { v2 };
            curr.set(j + 1, v);
            j += 1;
        }
        let mut x: usize = 0;
        while x <= blen
            invariant
                prev.len() == blen + 1,
                curr.len() == blen + 1,
                blen < usize::MAX,
                x <= blen + 1,
                forall|y: int| 0 <= y < x ==> prev@[y] == curr@[y],
            decreases blen + 1 - x,
        {
            let c = curr[x];
            prev.set(x, c);
            x += 1;
        }
        i += 1;
    }
    proof {
        assert(av@.take(n as int) =~= a@);
        assert(bv@.take(m as int) =~= b@);
    }
    prev[blen]
}

// ---------------------------------------------------------------------------
// Buckets of known terms

/// The key of the bucket for words whose first character is `first` (none
/// for the empty word) and whose UTF-8 encoding has `len` bytes.
pub open spec fn key_of_parts(first: Option<char>, len: nat) -> u128 {
    let f: int = match first {
        Some(c) => (c as u32) as int + 1,
        None => 0,
    };
    (f * 0x1_0000_0000_0000_0000 + len) as u128
}

/// The first character of a word, if any.
pub open spec fn first_char(t: Seq<char>) -> Option<char> {
    if t.len() == 0 { None } else { Some(t[0]) }
}

/// The bucket a word belongs to: its first character and its byte length.
pub open spec fn bucket_key(t: Seq<char>) -> u128 {
    key_of_parts(first_char(t), byte_len(t))
}

/// Two bucket keys of words that fit in memory are equal only when their
/// byte lengths are.
pub proof fn lemma_key_len(f1: Option<char>, l1: nat, f2: Option<char>, l2: nat)
    requires
        l1 <= usize::MAX,
        l2 <= usize::MAX,
        key_of_parts(f1, l1) == key_of_parts(f2, l2),
    ensures
        l1 == l2,
{
    let a: int = match f1 { Some(c) => (c as u32) as int + 1, None => 0 };
    let b: int = match f2 { Some(c) => (c as u32) as int + 1, None => 0 };
    assert(0 <= a * 0x1_0000_0000_0000_0000 + l1 < 0x1_0000_0000_0000_0000_0000_0000_0000_0000);
    assert(0 <= b * 0x1_0000_0000_0000_0000 + l2 < 0x1_0000_0000_0000_0000_0000_0000_0000_0000);
}

/// The key of the bucket of `t`, computed.
fn key_for(t: &str) -> (r: u128)
    ensures
        r == bucket_key(t@),
{
    let v = str_chars(t);
    let len = str_len(t);
    let f: u128 = if v.len() == 0 { 0 } else { (v[0] as u32) as u128 + 1 };
    f * 0x1_0000_0000_0000_0000 + len as u128
}

/// The key of the bucket for first character `first` and byte length `len`.
fn key_for_parts(first: char, len: usize) -> (r: u128)
    ensures
        r == key_of_parts(Some(first), len as nat),
{
    ((first as u32) as u128 + 1) * 0x1_0000_0000_0000_0000 + len as u128
}

/// The words of `ts` that belong to bucket `k`, in order.
pub open spec fn terms_with_key(ts: Seq<Seq<char>>, k: u128) -> Seq<Seq<char>>
    decreases ts.len(),
{
    if ts.len() == 0 {
        Seq::empty()
    } else {
        let prev = terms_with_key(ts.drop_last(), k);
        if bucket_key(ts.last()) == k { prev.push(ts.last()) } else { prev }
    }
}

/// Bucket `b` after the words of `ts` that belong to key `k` and are not
/// in it yet have been appended, each once.
pub open spec fn absorb(b: Seq<Seq<char>>, ts: Seq<Seq<char>>, k: u128) -> Seq<Seq<char>>
    decreases ts.len(),
{
    if ts.len() == 0 {
        b
    } else {
        let prev = absorb(b, ts.drop_last(), k);
        let t = ts.last();
        if bucket_key(t) == k && !prev.contains(t) { prev.push(t) } else { prev }
    }
}

/// The tokens of a sequence of chunks, chunk after chunk.
pub open spec fn chunk_tokens(chunks: Seq<Chunk>) -> Seq<Seq<char>>
    decreases chunks.len(),
{
    if chunks.len() == 0 {
        Seq::empty()
    } else {
        chunk_tokens(chunks.drop_last()) + string_views(chunks.last().tokens@)
    }
}

/// Known terms grouped by first character and byte length, the
/// candidates of spelling correction.
pub struct TermBuckets {
    map: HashMapWithView<u128, Vec<String>>,
}

impl TermBuckets {
    /// The words of bucket `k`, in the order they were added.
    pub closed spec fn bucket(&self, k: u128) -> Seq<Seq<char>> {
        if self.map@.contains_key(k) {
            string_views(self.map@[k]@)
        } else {
            Seq::empty()
        }
    }

    /// Every word lies in the bucket of its own key and fits in memory.
    pub closed spec fn wf(&self) -> bool {
        forall|k: u128, i: int|
            0 <= i < self.bucket(k).len() ==> bucket_key(#[trigger] self.bucket(k)[i]) == k
                && byte_len(self.bucket(k)[i]) <= usize::MAX
    }

    /// Buckets with no word.
    pub fn new() -> (r: Self)
        ensures
            r.wf(),
            forall|k: u128| #[trigger] r.bucket(k) == Seq::<Seq<char>>::empty(),
    {
        broadcast use vstd::std_specs::hash::group_hash_axioms;
        TermBuckets { map: HashMapWithView::new() }
    }

    /// Appends `t` to its bucket; with `check`, only when the bucket does
    /// not hold it yet.
    fn add(&mut self, t: &String, check: bool)
        requires
            old(self).wf(),
        ensures
            final(self).wf(),
            forall|k: u128| k != bucket_key(t@) ==> #[trigger] final(self).bucket(k) == old(self).bucket(k),
            final(self).bucket(bucket_key(t@)) == if check && old(self).bucket(bucket_key(t@)).contains(t@) {
                old(self).bucket(bucket_key(t@))
            } else {
                old(self).bucket(bucket_key(t@)).push(t@)
            },
    {
        let key = key_for(t.as_str());
        let blen = str_len(t.as_str());
        let ghost kb = self.bucket(key);
        let mut v = match self.map.remove(&key) {
            Some(v) => v,
            None => Vec::new(),
        };
        assert(string_views(v@) == kb);
        let mut present = false;
        if check {
            let mut i: usize = 0;
            while i < v.len()
                invariant
                    i <= v.len(),
                    string_views(v@) == kb,
                    present <==> exists|j: int| 0 <= j < i && kb[j] == t@,
                decreases v.len() - i,
            {
                assert(kb[i as int] == v@[i as int]@);
                if str_eq(v[i].as_str(), t.as_str()) {
                    present = true;
                }
                i += 1;
            }
            proof {
                if kb.contains(t@) {
                    let j = choose|j: int| 0 <= j < kb.len() && kb[j] == t@;
                    assert(kb[j] == t@);
                }
            }
        }
        if !present {
            v.push(t.clone());
            assert(string_views(v@) =~= kb.push(t@));
        }
        self.map.insert(key, v);
        proof {
            assert forall|k: u128, i: int| 0 <= i < self.bucket(k).len() implies bucket_key(
                #[trigger] self.bucket(k)[i],
            ) == k && byte_len(self.bucket(k)[i]) <= usize::MAX by {
                if k == key {
                    if i < kb.len() {
                        assert(self.bucket(k)[i] == old(self).bucket(k)[i]);
                    }
                } else {
                    assert(self.bucket(k) == old(self).bucket(k));
                }
            }
        }
    }
}

/// Groups known terms into buckets by first character and byte length,
/// each bucket keeping the terms in the given order.
pub fn build_term_buckets(terms: &[String]) -> (r: TermBuckets)
    ensures
        r.wf(),
        forall|k: u128| #[trigger] r.bucket(k) == terms_with_key(string_views(terms@), k),
{
    let mut b = TermBuckets::new();
    let ghost ts = string_views(terms@);
    let mut i: usize = 0;
    while i < terms.len()
        invariant
            i <= terms.len(),
            ts == string_views(terms@),
            b.wf(),
            forall|k: u128| #[trigger] b.bucket(k) == terms_with_key(ts.take(i as int), k),
        decreases terms.len() - i,
    {
        b.add(&terms[i], false);
        proof {
            assert(ts.take(i + 1).drop_last() =~= ts.take(i as int));
            assert(ts.take(i + 1).last() == terms@[i as int]@);
        }
        i += 1;
    }
    assert(ts.take(terms.len() as int) =~= ts);
    b
}

/// Adds the tokens of new chunks to their buckets, each token once.
pub fn update_term_buckets(buckets: &mut TermBuckets, chunks: &[Chunk])
    requires
        old(buckets).wf(),
    ensures
        final(buckets).wf(),
        forall|k: u128| #[trigger] final(buckets).bucket(k) == absorb(
            old(buckets).bucket(k),
            chunk_tokens(chunks@),
            k,
        ),
{
    let ghost b0: spec_fn(u128) -> Seq<Seq<char>> = |k: u128| buckets.bucket(k);
    let mut i: usize = 0;
    while i < chunks.len()
        invariant
            i <= chunks.len(),
            buckets.wf(),
            forall|k: u128| #[trigger] buckets.bucket(k) == absorb(b0(k), chunk_tokens(chunks@.take(i as int)), k),
        decreases chunks.len() - i,
    {
        let toks = &chunks[i].tokens;
        let ghost before = chunk_tokens(chunks@.take(i as int));
        let mut j: usize = 0;
        while j < toks.len()
            invariant
                i < chunks.len(),
                toks@ == chunks@[i as int].tokens@,
                j <= toks.len(),
                buckets.wf(),
                forall|k: u128| #[trigger] buckets.bucket(k) == absorb(
                    b0(k),
                    before + string_views(toks@.take(j as int)),
                    k,
                ),
            decreases toks.len() - j,
        {
            buckets.add(&toks[j], true);
            proof {
                let s1 = before + string_views(toks@.take(j + 1));
                assert(s1.drop_last() =~= before + string_views(toks@.take(j as int)));
                assert(s1.last() == toks@[j as int]@);
            }
            j += 1;
        }
        proof {
            assert(chunks@.take(i + 1).drop_last() =~= chunks@.take(i as int));
            assert(toks@.take(toks@.len() as int) =~= toks@);
        }
        i += 1;
    }
    assert(chunks@.take(chunks@.len() as int) =~= chunks@);
}

// ---------------------------------------------------------------------------
// Choosing a correction

/// The candidates for correcting `t`: the buckets of its first character
/// with byte lengths one less than, equal to and one more than its own, in
/// that order.
pub open spec fn correction_candidates(b: TermBuckets, t: Seq<char>) -> Seq<Seq<char>> {
    let f = first_char(t);
    let l = byte_len(t);
    b.bucket(key_of_parts(f, (l - 1) as nat)) + b.bucket(key_of_parts(f, l)) + b.bucket(
        key_of_parts(f, l + 1),
    )
}

/// Scanning `cands` in order, the first candidate within distance 2 of `t`
/// whose distance is smaller than that of every earlier one, with its
/// distance.
pub open spec fn closest(t: Seq<char>, cands: Seq<Seq<char>>) -> Option<(Seq<char>, nat)>
    decreases cands.len(),
{
    if cands.len() == 0 {
        None
    } else {
        let prev = closest(t, cands.drop_last());
        let c = cands.last();
        let d = edit_distance(t, c);
        if d <= 2 && (match prev {
            None => true,
            Some(p) => d < p.1,
        }) {
            Some((c, d))
        } else {
            prev
        }
    }
}

/// The correction proposed for `t`: none for words of fewer than three
/// bytes, else the closest candidate within distance 2, if any.
pub open spec fn suggestion(b: TermBuckets, t: Seq<char>) -> Option<Seq<char>> {
    if byte_len(t) < 3 {
        None
    } else {
        match closest(t, correction_candidates(b, t)) {
            Some(p) => Some(p.0),
            None => None,
        }
    }
}

/// The view of the best candidate found so far.
pub open spec fn best_view(best: Option<(String, usize)>) -> Option<(Seq<char>, nat)> {
    match best {
        Some(p) => Some((p.0@, p.1 as nat)),
        None => None,
    }
}

/// Continues the scan of `closest` over the bucket of `first` and byte
/// length `l`.
fn scan_bucket(
    term: &str,
    buckets: &TermBuckets,
    first: char,
    l: usize,
    best: Option<(String, usize)>,
    Ghost(seen): Ghost<Seq<Seq<char>>>,
) -> (r: Option<(String, usize)>)
    requires
        buckets.wf(),
        l < usize::MAX,
        best_view(best) == closest(term@, seen),
    ensures
        best_view(r) == closest(term@, seen + buckets.bucket(key_of_parts(Some(first), l as nat))),
{
    let key = key_for_parts(first, l);
    let mut best = best;
    match buckets.map.get(&key) {
        None => {
            assert(seen + buckets.bucket(key) =~= seen);
        },
        Some(cands) => {
            let ghost kb = buckets.bucket(key);
            assert(kb == string_views(cands@));
            assert(seen + kb.take(0) =~= seen);
            let mut j: usize = 0;
            while j < cands.len()
                invariant
                    buckets.wf(),
                    kb == buckets.bucket(key),
                    kb == string_views(cands@),
                    key == key_of_parts(Some(first), l as nat),
                    l < usize::MAX,
                    j <= cands.len(),
                    best_view(best) == closest(term@, seen + kb.take(j as int)),
                decreases cands.len() - j,
            {
                let cand = &cands[j];
                proof {
                    assert(kb[j as int] == cand@);
                    assert(bucket_key(kb[j as int]) == key);
                    lemma_key_len(first_char(cand@), byte_len(cand@), Some(first), l as nat);
                    let s1 = seen + kb.take(j + 1);
                    assert(s1.drop_last() =~= seen + kb.take(j as int));
                    assert(s1.last() == cand@);
                }
                let d = levenshtein(term, cand.as_str());
                let better = d <= 2 && match &best {
                    None => true,
                    Some(p) => d < p.1,
                };
                if better {
                    best = Some((cand.clone(), d));
                }
                j += 1;
            }
            assert(kb.take(cands.len() as int) =~= kb);
        },
    }
    best
}

/// The known term closest to `term` among those that share its first
/// character and are at most one byte shorter or longer, if one lies within
/// edit distance 2; on ties the first one met wins. Words of fewer than three
/// bytes are not corrected.
pub fn suggest_correction(term: &str, buckets: &TermBuckets) -> (r: Option<String>)
    requires
        buckets.wf(),
        byte_len(term@) + 2 <= usize::MAX,
    ensures
        match r {
            Some(s) => suggestion(*buckets, term@) == Some(s@),
            None => suggestion(*buckets, term@) is None,
        },
{
    let len = str_len(term);
    if len < 3 {
        return None;
    }
    let v = str_chars(term);
    if v.len() == 0 {
        assert(term@.len() == 0);
        assert(false);
        return None;
    }
    let first = v[0];
    let ghost f = first_char(term@);
    let ghost b1 = buckets.bucket(key_of_parts(f, (len - 1) as nat));
    let ghost b2 = buckets.bucket(key_of_parts(f, len as nat));
    let ghost b3 = buckets.bucket(key_of_parts(f, (len + 1) as nat));
    let best = scan_bucket(term, buckets, first, len - 1, None, Ghost(Seq::empty()));
    assert(Seq::<Seq<char>>::empty() + b1 =~= b1);
    let best = scan_bucket(term, buckets, first, len, best, Ghost(b1));
    let best = scan_bucket(term, buckets, first, len + 1, best, Ghost(b1 + b2));
    assert(correction_candidates(*buckets, term@) == b1 + b2 + b3);
    match best {
        Some(p) => Some(p.0),
        None => None,
    }
}

proof fn lemma_closest(t: Seq<char>, cands: Seq<Seq<char>>)
    ensures
        match closest(t, cands) {
            Some(p) => p.1 == edit_distance(t, p.0) && p.1 <= 2 && cands.contains(p.0) && forall|i: int|
                0 <= i < cands.len() ==> p.1 <= #[trigger] edit_distance(t, cands[i]),
            None => forall|i: int| 0 <= i < cands.len() ==> #[trigger] edit_distance(t, cands[i]) > 2,
        },
    decreases cands.len(),
{
    if cands.len() > 0 {
        let init = cands.drop_last();
        lemma_closest(t, init);
        assert forall|i: int| 0 <= i < init.len() implies init[i] == cands[i] by {}
        match closest(t, cands) {
            Some(p) => {
                if p.0 == cands.last() && p.1 == edit_distance(t, cands.last()) {
                    assert(cands[cands.len() - 1] == p.0);
                } else {
                    let q = closest(t, init).unwrap();
                    let j = choose|j: int| 0 <= j < init.len() && init[j] == q.0;
                    assert(cands[j] == q.0);
                }
            },
            None => {},
        }
    }
}

/// A proposed correction is one of the candidates, lies within edit distance
/// 2 of the word, and no candidate is closer; when none is proposed, the word
/// is shorter than three bytes or every candidate is farther than 2.
pub proof fn lemma_suggestion_is_nearest(b: TermBuckets, t: Seq<char>)
    ensures
        match suggestion(b, t) {
            Some(c) => {
                &&& correction_candidates(b, t).contains(c)
                &&& edit_distance(t, c) <= 2
                &&& forall|i: int|
                    0 <= i < correction_candidates(b, t).len() ==> edit_distance(t, c)
                        <= #[trigger] edit_distance(t, correction_candidates(b, t)[i])
            },
            None => byte_len(t) < 3 || forall|i: int|
                0 <= i < correction_candidates(b, t).len() ==> #[trigger] edit_distance(
                    t,
                    correction_candidates(b, t)[i],
                ) > 2,
        },
{
    lemma_closest(t, correction_candidates(b, t));
}

/// A known term that shares the word's first character, is at most one
/// byte shorter or longer, and lies within edit distance 2 of a word of at
/// least three bytes is never passed over: a correction is proposed, and it
/// is at least as close to the word as that term.
pub proof fn lemma_near_term_is_suggested(b: TermBuckets, t: Seq<char>, c: Seq<char>)
    requires
        byte_len(t) >= 3,
        first_char(c) == first_char(t),
        byte_len(c) + 1 == byte_len(t) || byte_len(c) == byte_len(t) || byte_len(c) == byte_len(t) + 1,
        b.bucket(bucket_key(c)).contains(c),
        edit_distance(t, c) <= 2,
    ensures
        suggestion(b, t) is Some,
        edit_distance(t, suggestion(b, t).unwrap()) <= edit_distance(t, c),
{
    let f = first_char(t);
    let l = byte_len(t);
    let b1 = b.bucket(key_of_parts(f, (l - 1) as nat));
    let b2 = b.bucket(key_of_parts(f, l));
    let b3 = b.bucket(key_of_parts(f, l + 1));
    let cands = correction_candidates(b, t);
    assert(cands == b1 + b2 + b3);
    let bc = b.bucket(bucket_key(c));
    let m = choose|m: int| 0 <= m < bc.len() && bc[m] == c;
    let i: int = if byte_len(c) + 1 == l {
        assert(bc == b1);
        m
    } else if byte_len(c) == l {
        assert(bc == b2);
        b1.len() + m
    } else {
        assert(bc == b3);
        b1.len() + b2.len() + m
    };
    assert(cands[i] == c);
    lemma_suggestion_is_nearest(b, t);
    assert(edit_distance(t, cands[i]) <= 2);
}

/// Every term given to `build_term_buckets` lies in the bucket of its own
/// first character and byte length.
pub proof fn lemma_built_bucket_holds_term(ts: Seq<Seq<char>>, i: int)
    requires
        0 <= i < ts.len(),
    ensures
        terms_with_key(ts, bucket_key(ts[i])).contains(ts[i]),
    decreases ts.len(),
{
    let k = bucket_key(ts[i]);
    if i == ts.len() - 1 {
        assert(terms_with_key(ts, k).last() == ts[i]);
    } else {
        lemma_built_bucket_holds_term(ts.drop_last(), i);
        let prev = terms_with_key(ts.drop_last(), k);
        let j = choose|j: int| 0 <= j < prev.len() && prev[j] == ts[i];
        if bucket_key(ts.last()) == k {
            assert(prev.push(ts.last())[j] == ts[i]);
        }
    }
}

/// After `update_term_buckets`, every token of the new chunks lies in the
/// bucket of its own first character and byte length.
pub proof fn lemma_absorb_holds_token(b: Seq<Seq<char>>, ts: Seq<Seq<char>>, i: int)
    requires
        0 <= i < ts.len(),
    ensures
        absorb(b, ts, bucket_key(ts[i])).contains(ts[i]),
    decreases ts.len(),
{
    let k = bucket_key(ts[i]);
    if i == ts.len() - 1 {
        let prev = absorb(b, ts.drop_last(), k);
        if !prev.contains(ts[i]) {
            assert(absorb(b, ts, k).last() == ts[i]);
        }
    } else {
        lemma_absorb_holds_token(b, ts.drop_last(), i);
        let prev = absorb(b, ts.drop_last(), k);
        let j = choose|j: int| 0 <= j < prev.len() && prev[j] == ts[i];
        if bucket_key(ts.last()) == k && !prev.contains(ts.last()) {
            assert(prev.push(ts.last())[j] == ts[i]);
        }
    }
}

} // verus!
