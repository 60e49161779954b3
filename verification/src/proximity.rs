//! How close together the query terms occur in a chunk: the shortest span
//! of word positions that holds every query term at least once.
use vstd::prelude::*;
use crate::processing::Chunk;
use crate::text::{string_views, tokenize_with_positions, TokenPositions};

verus! {

/// Whether `ps` holds a position between `lo` and `hi`.
pub open spec fn occurs_between(ps: Seq<usize>, lo: int, hi: int) -> bool {
    exists|k: int| 0 <= k < ps.len() && lo <= ps[k] && ps[k] <= hi
}

/// Whether the span `lo..=hi` holds a position of every list.
pub open spec fn covers(lists: Seq<Seq<usize>>, lo: int, hi: int) -> bool {
    forall|t: int| 0 <= t < lists.len() ==> occurs_between(#[trigger] lists[t], lo, hi)
}

/// The smallest position of `ps` at or after `lo`, if any.
pub open spec fn min_at_least(ps: Seq<usize>, lo: int) -> Option<int>
    decreases ps.len(),
{
    if ps.len() == 0 {
        None
    } else {
        let prev = min_at_least(ps.drop_last(), lo);
        let x = ps.last() as int;
        if x >= lo {
            match prev {
                Some(p) => Some(if p <= x { p } else { x }),
                None => Some(x),
            }
        } else {
            prev
        }
    }
}

/// Where the shortest span starting at `lo` that covers every list ends:
/// the largest of the lists' first positions at or after `lo` (and `lo`
/// itself), or none if a list has no position there.
pub open spec fn cover_end(lists: Seq<Seq<usize>>, lo: int) -> Option<int>
    decreases lists.len(),
{
    if lists.len() == 0 {
        Some(lo)
    } else {
        match cover_end(lists.drop_last(), lo) {
            None => None,
            Some(e) => match min_at_least(lists.last(), lo) {
                None => None,
                Some(p) => Some(if e >= p { e } else { p }),
            },
        }
    }
}

proof fn lemma_min_at_least(ps: Seq<usize>, lo: int)
    ensures
        match min_at_least(ps, lo) {
            Some(p) => (exists|k: int| 0 <= k < ps.len() && ps[k] == p) && p >= lo && forall|k: int|
                0 <= k < ps.len() && ps[k] >= lo ==> p <= ps[k],
            None => forall|k: int| 0 <= k < ps.len() ==> ps[k] < lo,
        },
    decreases ps.len(),
{
    if ps.len() > 0 {
        let init = ps.drop_last();
        lemma_min_at_least(init, lo);
        assert forall|k: int| 0 <= k < init.len() implies init[k] == ps[k] by {}
        match min_at_least(init, lo) {
            Some(p) => {
                let k = choose|k: int| 0 <= k < init.len() && init[k] == p;
                assert(ps[k] == p);
            },
            None => {},
        }
        assert(ps[ps.len() - 1] == ps.last());
    }
}

proof fn lemma_cover_end(lists: Seq<Seq<usize>>, lo: int)
    ensures
        match cover_end(lists, lo) {
            Some(e) => e >= lo && covers(lists, lo, e) && forall|hi: int| covers(lists, lo, hi) ==> e <= hi || lists.len() == 0,
            None => forall|hi: int| !covers(lists, lo, hi),
        },
    decreases lists.len(),
{
    if lists.len() > 0 {
        let init = lists.drop_last();
        let last = lists.last();
        lemma_cover_end(init, lo);
        lemma_min_at_least(last, lo);
        assert forall|t: int| 0 <= t < init.len() implies #[trigger] init[t] == lists[t] by {}
        assert(lists[lists.len() - 1] == last);
        match cover_end(init, lo) {
            None => {
                assert forall|hi: int| !covers(lists, lo, hi) by {
                    if covers(lists, lo, hi) {
                        assert forall|t: int| 0 <= t < init.len() implies occurs_between(#[trigger] init[t], lo, hi) by {
                            assert(occurs_between(lists[t], lo, hi));
                        }
                        assert(covers(init, lo, hi));
                    }
                }
            },
            Some(e) => {
                match min_at_least(last, lo) {
                    None => {
                        assert forall|hi: int| !covers(lists, lo, hi) by {
                            if covers(lists, lo, hi) {
                                assert(occurs_between(lists[lists.len() - 1], lo, hi));
                                let k = choose|k: int| 0 <= k < last.len() && lo <= last[k] && last[k] <= hi;
                            }
                        }
                    },
                    Some(p) => {
                        let m = if e >= p { e } else { p };
                        assert(covers(lists, lo, m)) by {
                            assert forall|t: int| 0 <= t < lists.len() implies occurs_between(#[trigger] lists[t], lo, m) by {
                                if t < init.len() {
                                    if init.len() > 0 {
                                        assert(occurs_between(init[t], lo, e));
                                        let k = choose|k: int| 0 <= k < init[t].len() && lo <= init[t][k] && init[t][k] <= e;
                                        assert(lists[t][k] == init[t][k]);
                                    }
                                } else {
                                    let k = choose|k: int| 0 <= k < last.len() && last[k] == p;
                                    assert(lists[t][k] == p);
                                }
                            }
                        }
                        assert forall|hi: int| covers(lists, lo, hi) implies m <= hi by {
                            assert(occurs_between(lists[lists.len() - 1], lo, hi));
                            let k = choose|k: int| 0 <= k < last.len() && lo <= last[k] && last[k] <= hi;
                            assert(p <= last[k]);
                            if init.len() > 0 {
                                assert forall|t: int| 0 <= t < init.len() implies occurs_between(#[trigger] init[t], lo, hi) by {
                                    assert(occurs_between(lists[t], lo, hi));
                                }
                                assert(covers(init, lo, hi));
                            }
                        }
                    },
                }
            },
        }
    }
}

/// The smallest first position at or after `lo` over all lists, if every
/// list has one: the earliest start of a span from `lo` on.
pub open spec fn earliest_next(lists: Seq<Seq<usize>>, lo: int) -> Option<int>
    decreases lists.len(),
{
    if lists.len() == 0 {
        None
    } else {
        let here = min_at_least(lists.last(), lo);
        match earliest_next(lists.drop_last(), lo) {
            None => here,
            Some(e) => match here {
                None => Some(e),
                Some(h) => Some(if e <= h { e } else { h }),
            },
        }
    }
}

proof fn lemma_earliest_next(lists: Seq<Seq<usize>>, lo: int)
    requires
        lists.len() > 0,
        forall|t: int| 0 <= t < lists.len() ==> min_at_least(#[trigger] lists[t], lo) is Some,
    ensures
        earliest_next(lists, lo) is Some,
        lo <= earliest_next(lists, lo).unwrap(),
        exists|t: int, k: int| 0 <= t < lists.len() && 0 <= k < lists[t].len() && lists[t][k] == earliest_next(lists, lo).unwrap(),
        forall|t: int| 0 <= t < lists.len() ==> earliest_next(lists, lo).unwrap() <= min_at_least(#[trigger] lists[t], lo).unwrap(),
    decreases lists.len(),
{
    let init = lists.drop_last();
    let last = lists.last();
    assert(lists[lists.len() - 1] == last);
    lemma_min_at_least(last, lo);
    assert forall|t: int| 0 <= t < init.len() implies #[trigger] init[t] == lists[t] by {}
    if init.len() > 0 {
        assert forall|t: int| 0 <= t < init.len() implies min_at_least(#[trigger] init[t], lo) is Some by {
            assert(init[t] == lists[t]);
        }
        lemma_earliest_next(init, lo);
        let e = earliest_next(init, lo).unwrap();
        let (t0, k0) = choose|t: int, k: int| 0 <= t < init.len() && 0 <= k < init[t].len() && init[t][k] == e;
        assert(lists[t0][k0] == e);
        let h = min_at_least(last, lo).unwrap();
        let kh = choose|k: int| 0 <= k < last.len() && last[k] == h;
        assert(lists[lists.len() - 1][kh] == h);
        assert forall|t: int| 0 <= t < lists.len() implies earliest_next(lists, lo).unwrap() <= min_at_least(#[trigger] lists[t], lo).unwrap() by {
            if t < init.len() {
                assert(e <= min_at_least(init[t], lo).unwrap());
            }
        }
    } else {
        let h = min_at_least(last, lo).unwrap();
        let kh = choose|k: int| 0 <= k < last.len() && last[k] == h;
        assert(lists[0][kh] == h);
    }
}

/// Every covering span is at least as long as the span that starts at the
/// earliest position after its start.
proof fn lemma_best_start(lists: Seq<Seq<usize>>, lo: int, hi: int)
    requires
        lists.len() > 0,
        covers(lists, lo, hi),
    ensures
        earliest_next(lists, lo) is Some,
        lo <= earliest_next(lists, lo).unwrap(),
        exists|t: int, k: int| 0 <= t < lists.len() && 0 <= k < lists[t].len() && lists[t][k] == earliest_next(lists, lo).unwrap(),
        cover_end(lists, earliest_next(lists, lo).unwrap()) is Some,
        cover_end(lists, earliest_next(lists, lo).unwrap()).unwrap() <= hi,
{
    assert forall|t: int| 0 <= t < lists.len() implies min_at_least(#[trigger] lists[t], lo) is Some by {
        lemma_min_at_least(lists[t], lo);
        assert(occurs_between(lists[t], lo, hi));
        let k = choose|k: int| 0 <= k < lists[t].len() && lo <= lists[t][k] && lists[t][k] <= hi;
    }
    lemma_earliest_next(lists, lo);
    let s = earliest_next(lists, lo).unwrap();
    assert(covers(lists, s, hi)) by {
        assert forall|t: int| 0 <= t < lists.len() implies occurs_between(#[trigger] lists[t], s, hi) by {
            lemma_min_at_least(lists[t], lo);
            assert(occurs_between(lists[t], lo, hi));
            let k = choose|k: int| 0 <= k < lists[t].len() && lo <= lists[t][k] && lists[t][k] <= hi;
            let p = min_at_least(lists[t], lo).unwrap();
            let kp = choose|kk: int| 0 <= kk < lists[t].len() && lists[t][kk] == p;
            assert(s <= p && p <= lists[t][k]);
        }
    }
    lemma_cover_end(lists, s);
}

/// The smallest element at or after `lo` of `ps`.
fn next_at_least(ps: &Vec<usize>, lo: usize) -> (r: Option<usize>)
    ensures
        match r {
            Some(p) => min_at_least(ps@, lo as int) == Some(p as int),
            None => min_at_least(ps@, lo as int) is None,
        },
{
    let mut best: Option<usize> = None;
    let mut i: usize = 0;
    assert(ps@.take(0) =~= Seq::<usize>::empty());
    while i < ps.len()
        invariant
            i <= ps.len(),
            match best {
                Some(p) => min_at_least(ps@.take(i as int), lo as int) == Some(p as int),
                None => min_at_least(ps@.take(i as int), lo as int) is None,
            },
        decreases ps.len() - i,
    {
        assert(ps@.take(i + 1).drop_last() =~= ps@.take(i as int));
        let x = ps[i];
        if x >= lo {
            best = match best {
                Some(p) => Some(if p <= x { p } else { x }),
                None => Some(x),
            };
        }
        i += 1;
    }
    assert(ps@.take(ps@.len() as int) =~= ps@);
    best
}

/// The views of position lists.
pub open spec fn lists_of(v: Seq<Vec<usize>>) -> Seq<Seq<usize>> {
    v.map_values(|l: Vec<usize>| l@)
}

/// The length of the shortest span of positions that holds a position of
/// every list, if one does.
pub fn min_cover_window(lists: &Vec<Vec<usize>>) -> (r: Option<u128>)
    requires
        lists@.len() > 0,
    ensures
        match r {
            Some(b) => (exists|lo: int, hi: int| lo <= hi && covers(lists_of(lists@), lo, hi) && b == hi - lo + 1)
                && forall|lo: int, hi: int| lo <= hi && covers(lists_of(lists@), lo, hi) ==> b <= hi - lo + 1,
            None => forall|lo: int, hi: int| !covers(lists_of(lists@), lo, hi),
        },
{
    let ghost ls = lists_of(lists@);
    let mut best: Option<u128> = None;
    let mut t: usize = 0;
    while t < lists.len()
        invariant
            ls == lists_of(lists@),
            ls.len() > 0,
            t <= lists.len(),
            forall|a: int, k: int| 0 <= a < t && 0 <= k < ls[a].len() && cover_end(ls, ls[a][k] as int) is Some
                ==> best is Some && best.unwrap() <= cover_end(ls, ls[a][k] as int).unwrap() - ls[a][k] + 1,
            match best {
                Some(b) => exists|lo: int, hi: int| lo <= hi && covers(ls, lo, hi) && b == hi - lo + 1,
                None => true,
            },
        decreases lists.len() - t,
    {
        let mut k: usize = 0;
        while k < lists[t].len()
            invariant
                ls == lists_of(lists@),
                ls.len() > 0,
                t < lists.len(),
                k <= lists@[t as int]@.len(),
                forall|a: int, kk: int| 0 <= a < t && 0 <= kk < ls[a].len() && cover_end(ls, ls[a][kk] as int) is Some
                    ==> best is Some && best.unwrap() <= cover_end(ls, ls[a][kk] as int).unwrap() - ls[a][kk] + 1,
                forall|kk: int| 0 <= kk < k && cover_end(ls, ls[t as int][kk] as int) is Some
                    ==> best is Some && best.unwrap() <= cover_end(ls, ls[t as int][kk] as int).unwrap() - ls[t as int][kk] + 1,
                match best {
                    Some(b) => exists|lo: int, hi: int| lo <= hi && covers(ls, lo, hi) && b == hi - lo + 1,
                    None => true,
                },
            decreases lists@[t as int]@.len() - k,
        {
            let lo = lists[t][k];
            assert(ls[t as int][k as int] == lo);
            let mut m: usize = lo;
            let mut ok = true;
            let mut j: usize = 0;
            assert(ls.take(0) =~= Seq::<Seq<usize>>::empty());
            while j < lists.len()
                invariant
                    ls == lists_of(lists@),
                    j <= lists.len(),
                    lo <= m,
                    ok ==> cover_end(ls.take(j as int), lo as int) == Some(m as int),
                    !ok ==> cover_end(ls.take(j as int), lo as int) is None,
                decreases lists.len() - j,
            {
                assert(ls.take(j + 1).drop_last() =~= ls.take(j as int));
                assert(ls.take(j + 1).last() == lists@[j as int]@);
                match next_at_least(&lists[j], lo) {
                    None => {
                        ok = false;
                    },
                    Some(p) => {
                        proof {
                            lemma_min_at_least(lists@[j as int]@, lo as int);
                            let kp = choose|kk: int| 0 <= kk < lists@[j as int]@.len() && lists@[j as int]@[kk] == p;
                        }
                        if ok && p > m {
                            m = p;
                        }
                    },
                }
                j += 1;
            }
            assert(ls.take(ls.len() as int) =~= ls);
            if ok {
                proof {
                    lemma_cover_end(ls, lo as int);
                }
                let w: u128 = (m - lo) as u128 + 1;
                let better = match best {
                    Some(b) => w < b,
                    None => true,
                };
                if better {
                    best = Some(w);
                }
            }
            k += 1;
        }
        t += 1;
    }
    proof {
        match best {
            Some(b) => {
                assert forall|lo: int, hi: int| lo <= hi && covers(ls, lo, hi) implies b <= hi - lo + 1 by {
                    lemma_best_start(ls, lo, hi);
                    let s = earliest_next(ls, lo).unwrap();
                    let (a, kk) = choose|a: int, kk: int| 0 <= a < ls.len() && 0 <= kk < ls[a].len() && ls[a][kk] == s;
                }
            },
            None => {
                assert forall|lo: int, hi: int| !covers(ls, lo, hi) by {
                    if covers(ls, lo, hi) {
                        lemma_best_start(ls, lo, hi);
                        let s = earliest_next(ls, lo).unwrap();
                        let (a, kk) = choose|a: int, kk: int| 0 <= a < ls.len() && 0 <= kk < ls[a].len() && ls[a][kk] == s;
                    }
                }
            },
        }
    }
    best
}

/// The positions recorded for each query token, in query order.
pub open spec fn query_lists(pos: TokenPositions, q: Seq<Seq<char>>) -> Seq<Seq<usize>> {
    q.map_values(|t: Seq<char>| pos.at(t))
}

/// The proximity window of a query in recorded positions: none for fewer
/// than two query tokens or when a token has no entry; otherwise the
/// shortest covering span, if any.
pub open spec fn window_spec(pos: TokenPositions, q: Seq<Seq<char>>, r: Option<u128>) -> bool {
    if q.len() < 2 || exists|i: int| 0 <= i < q.len() && !pos.has(#[trigger] q[i]) {
        r is None
    } else {
        match r {
            Some(b) => (exists|lo: int, hi: int| lo <= hi && covers(query_lists(pos, q), lo, hi) && b == hi - lo + 1)
                && forall|lo: int, hi: int| lo <= hi && covers(query_lists(pos, q), lo, hi) ==> b <= hi - lo + 1,
            None => forall|lo: int, hi: int| !covers(query_lists(pos, q), lo, hi),
        }
    }
}

/// The length of the shortest span of word positions holding every query
/// token, from recorded positions: the proximity score is one over one more
/// than it.
pub fn proximity_window(positions: &TokenPositions, query_tokens: &[String]) -> (r: Option<u128>)
    requires
        positions.wf(),
    ensures
        window_spec(*positions, string_views(query_tokens@), r),
{
    let ghost q = string_views(query_tokens@);
    if query_tokens.len() < 2 {
        return None;
    }
    let mut lists: Vec<Vec<usize>> = Vec::new();
    let mut i: usize = 0;
    while i < query_tokens.len()
        invariant
            q == string_views(query_tokens@),
            positions.wf(),
            i <= query_tokens.len(),
            lists@.len() == i,
            forall|j: int| 0 <= j < i ==> positions.has(#[trigger] q[j]),
            forall|j: int| 0 <= j < i ==> (#[trigger] lists@[j])@ == positions.at(q[j]),
        decreases query_tokens.len() - i,
    {
        match positions.get(query_tokens[i].as_str()) {
            Some(p) => {
                lists.push(p);
            },
            None => {
                assert(!positions.has(q[i as int]));
                return None;
            },
        }
        i += 1;
    }
    proof {
        assert(lists_of(lists@) =~= query_lists(*positions, q));
        assert(!(exists|j: int| 0 <= j < q.len() && !positions.has(#[trigger] q[j])));
    }
    min_cover_window(&lists)
}

/// The proximity window of a query in a chunk, from the chunk's recorded
/// positions or, when it has none, from the positions of its normalised text.
pub fn chunk_proximity(chunk: &Chunk, query_tokens: &[String]) -> (r: Option<u128>)
    requires
        chunk.positions.wf(),
    ensures
        chunk.positions.count() == 0 ==> exists|p: TokenPositions| p.records(crate::text::words(crate::text::normalize(chunk.clean@)))
            && window_spec(p, string_views(query_tokens@), r),
        chunk.positions.count() > 0 ==> window_spec(chunk.positions, string_views(query_tokens@), r),
{
    if chunk.positions.is_empty() {
        let (_, p) = tokenize_with_positions(chunk.clean.as_str());
        let r = proximity_window(&p, query_tokens);
        assert(p.records(crate::text::words(crate::text::normalize(chunk.clean@))) && window_spec(p, string_views(query_tokens@), r));
        r
    } else {
        proximity_window(&chunk.positions, query_tokens)
    }
}

} // verus!
