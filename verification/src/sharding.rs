//! How a query is spread over the shards of a sharded index: which shard it
//! starts at, and how many consecutive shards it visits.
use vstd::prelude::*;
use crate::text::{normalize, normalize_text};

verus! {

/// The seed of a byte string: `31 * seed + byte` over its bytes, wrapping in
/// a `usize`.
pub open spec fn seed_of(bytes: Seq<u8>) -> usize
    decreases bytes.len(),
{
    if bytes.len() == 0 {
        0
    } else {
        vstd::wrapping::usize_specs::wrapping_add(
            vstd::wrapping::usize_specs::wrapping_mul(seed_of(bytes.drop_last()), 31),
            bytes.last() as usize,
        )
    }
}

/// The seed of a query: that of the UTF-8 bytes of its normalised text.
pub open spec fn query_seed_spec(query: Seq<char>) -> usize {
    seed_of(vstd::utf8::encode_utf8(normalize(query)))
}

/// The seed of a query, from which its first shard is chosen.
pub fn query_seed(query: &str) -> (r: usize)
    ensures
        r == query_seed_spec(query@),
{
    let n = normalize_text(query);
    let bytes = n.as_str().as_bytes();
    let mut h: usize = 0;
    let mut i: usize = 0;
    while i < bytes.len()
        invariant
            i <= bytes.len(),
            h == seed_of(bytes@.take(i as int)),
        decreases bytes.len() - i,
    {
        assert(bytes@.take(i + 1).drop_last() =~= bytes@.take(i as int));
        h = h.wrapping_mul(31).wrapping_add(bytes[i] as usize);
        i += 1;
    }
    assert(bytes@.take(bytes@.len() as int) =~= bytes@);
    h
}

/// The shard a query starts at: its seed modulo the number of shards (0
/// when there is none).
pub fn first_shard(query: &str, shard_count: usize) -> (r: usize)
    ensures
        shard_count == 0 ==> r == 0,
        shard_count > 0 ==> r == query_seed_spec(query@) % shard_count && r < shard_count,
{
    if shard_count == 0 {
        0
    } else {
        query_seed(query) % shard_count
    }
}

/// How many shards a query visits: all of them when there is at most one,
/// otherwise the number `wanted` for its kind, kept between 1 and the number
/// of shards.
pub fn shard_budget(shard_count: usize, wanted: usize) -> (r: usize)
    ensures
        shard_count <= 1 ==> r == shard_count,
        shard_count > 1 ==> r == if wanted == 0 {
            1
        } else if wanted > shard_count {
            shard_count
        } else {
            wanted
        },
        r <= shard_count,
{
    if shard_count <= 1 {
        return shard_count;
    }
    let b = if wanted < shard_count { wanted } else { shard_count };
    if b < 1 {
        1
    } else {
        b
    }
}

/// The shards a query visits, in order: `budget` consecutive shards from
/// `start`, wrapping around.
pub fn visited_shards(start: usize, budget: usize, shard_count: usize) -> (r: Vec<usize>)
    requires
        shard_count > 0,
        start < shard_count,
        budget <= shard_count,
        start + budget <= usize::MAX,
    ensures
        r@.len() == budget,
        forall|k: int| 0 <= k < budget ==> #[trigger] r@[k] == (start + k) % (shard_count as int),
        forall|k: int| 0 <= k < budget ==> #[trigger] r@[k] < shard_count,
{
    let mut out: Vec<usize> = Vec::new();
    let mut k: usize = 0;
    while k < budget
        invariant
            shard_count > 0,
            start < shard_count,
            budget <= shard_count,
            start + budget <= usize::MAX,
            k <= budget,
            out@.len() == k,
            forall|j: int| 0 <= j < k ==> #[trigger] out@[j] == (start + j) % (shard_count as int),
            forall|j: int| 0 <= j < k ==> #[trigger] out@[j] < shard_count,
        decreases budget - k,
    {
        let idx = (start + k) % shard_count;
        out.push(idx);
        k += 1;
    }
    out
}

} // verus!
