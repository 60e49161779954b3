//! The hashed character n-grams behind text embeddings: the FNV-1a hash of
//! a byte string and, for each of a fixed number of buckets, how many n-grams
//! of a normalised text hash into it.
use vstd::prelude::*;
use crate::text::{normalize, normalize_text};

verus! {

/// The 32-bit FNV-1a hash of `bytes`.
pub open spec fn fnv1a(bytes: Seq<u8>) -> u32
    decreases bytes.len(),
{
    if bytes.len() == 0 {
        2166136261
    } else {
        (((fnv1a(bytes.drop_last()) ^ (bytes.last() as u32)) as int * 16777619) % 0x1_0000_0000) as u32
    }
}

/// The 32-bit FNV-1a hash of `bytes`.
pub fn fnv1a_hash_bytes(bytes: &[u8]) -> (r: u32)
    ensures
        r == fnv1a(bytes@),
{
    let mut hash: u32 = 2166136261;
    let mut i: usize = 0;
    assert(bytes@.take(0) =~= Seq::<u8>::empty());
    while i < bytes.len()
        invariant
            i <= bytes.len(),
            hash == fnv1a(bytes@.take(i as int)),
        decreases bytes.len() - i,
    {
        assert(bytes@.take(i + 1).drop_last() =~= bytes@.take(i as int));
        hash = hash ^ (bytes[i] as u32);
        hash = hash.wrapping_mul(16777619);
        i += 1;
    }
    assert(bytes@.take(bytes@.len() as int) =~= bytes@);
    hash
}

/// The bytes an embedding reads n-grams from: the normalised text with one
/// space before and after, in UTF-8.
pub open spec fn padded_bytes(text: Seq<char>) -> Seq<u8> {
    vstd::utf8::encode_utf8(seq![' '] + normalize(text) + seq![' '])
}

/// How many of the `n`-grams starting before `i` hash into bucket `k` of
/// `dims`.
pub open spec fn grams_in_bucket(b: Seq<u8>, n: int, i: int, dims: int, k: int) -> int
    decreases i,
{
    if i <= 0 {
        0
    } else {
        grams_in_bucket(b, n, i - 1, dims, k) + if (fnv1a(b.subrange(i - 1, i - 1 + n)) as int) % dims == k {
            1int
        } else {
            0int
        }
    }
}

/// How many n-grams, for `n` from `lo` up to before `hi`, of the bytes
/// hash into bucket `k`: every `n` no longer than the bytes counts all
/// its `len - n + 1` positions.
pub open spec fn bucket_count(b: Seq<u8>, lo: int, hi: int, dims: int, k: int) -> int
    decreases hi - lo,
{
    if hi <= lo {
        0
    } else {
        bucket_count(b, lo, hi - 1, dims, k) + if b.len() < hi - 1 {
            0
        } else {
            grams_in_bucket(b, hi - 1, b.len() - (hi - 1) + 1, dims, k)
        }
    }
}

proof fn lemma_grams_bound(b: Seq<u8>, n: int, i: int, dims: int, k: int)
    requires
        i >= 0,
    ensures
        0 <= grams_in_bucket(b, n, i, dims, k) <= i,
    decreases i,
{
    if i > 0 {
        lemma_grams_bound(b, n, i - 1, dims, k);
    }
}

proof fn lemma_count_bound(b: Seq<u8>, lo: int, hi: int, dims: int, k: int)
    requires
        0 <= lo,
    ensures
        0 <= bucket_count(b, lo, hi, dims, k) <= if hi <= lo { 0 } else { (hi - lo) * (b.len() + 1) },
    decreases hi - lo,
{
    if hi > lo {
        lemma_count_bound(b, lo, hi - 1, dims, k);
        if b.len() >= hi - 1 {
            lemma_grams_bound(b, hi - 1, b.len() - (hi - 1) + 1, dims, k);
        }
        if hi - 1 <= lo {
            assert((hi - lo) * (b.len() + 1) == b.len() + 1) by (nonlinear_arith)
                requires
                    hi - lo == 1,
            ;
        } else {
            assert((hi - 1 - lo) * (b.len() + 1) + (b.len() + 1) == (hi - lo) * (b.len() + 1)) by (nonlinear_arith);
        }
    }
}

/// For each of `dims` buckets, how many of the `n`-grams of the padded,
/// normalised text (for `n` from `ngram_min` to `ngram_max`) hash into it.
/// An embedding is this vector scaled to unit length.
pub fn ngram_counts(text: &str, dims: usize, ngram_min: usize, ngram_max: usize) -> (r: Vec<u128>)
    requires
        dims > 0,
    ensures
        r@.len() == dims,
        forall|k: int| 0 <= k < dims ==> #[trigger] r@[k] == bucket_count(
            padded_bytes(text@),
            ngram_min as int,
            ngram_max + 1,
            dims as int,
            k,
        ),
{
    let normalized = normalize_text(text);
    let mut padded: Vec<char> = Vec::new();
    padded.push(' ');
    let nv = crate::chars::str_chars(normalized.as_str());
    crate::chars::extend_chars(&mut padded, &nv);
    padded.push(' ');
    let ps = crate::chars::string_from_chars(&padded);
    let bytes = ps.as_str().as_bytes();
    proof {
        assert(padded@ =~= seq![' '] + normalize(text@) + seq![' ']);
    }
    let ghost b = bytes@;
    let len = bytes.len();
    let mut counts: Vec<u128> = Vec::new();
    let mut k: usize = 0;
    while k < dims
        invariant
            k <= dims,
            counts@.len() == k,
            forall|j: int| 0 <= j < k ==> counts@[j] == 0,
        decreases dims - k,
    {
        counts.push(0);
        k += 1;
    }
    if ngram_min > ngram_max {
        proof {
            assert forall|j: int| 0 <= j < dims implies #[trigger] counts@[j] == bucket_count(b, ngram_min as int, ngram_max + 1, dims as int, j) by {}
        }
        return counts;
    }
    let mut n: usize = ngram_min;
    let mut more_n = true;
    while more_n
        invariant
            b == bytes@,
            len == b.len(),
            dims > 0,
            ngram_min <= n <= ngram_max,
            counts@.len() == dims,
            more_n ==> forall|j: int| 0 <= j < dims ==> #[trigger] counts@[j] == bucket_count(b, ngram_min as int, n as int, dims as int, j),
            !more_n ==> forall|j: int| 0 <= j < dims ==> #[trigger] counts@[j] == bucket_count(b, ngram_min as int, ngram_max + 1, dims as int, j),
        decreases 2 * (ngram_max - n) + if more_n { 1int } else { 0int },
    {
        if len >= n {
            let last = len - n;
            let mut i: usize = 0;
            let mut more = true;
            while more
                invariant
                    b == bytes@,
                    len == b.len(),
                    n <= len,
                    last == len - n,
                    dims > 0,
                    ngram_min <= n <= ngram_max,
                    i <= last,
                    counts@.len() == dims,
                    more ==> forall|j: int| 0 <= j < dims ==> #[trigger] counts@[j] == bucket_count(b, ngram_min as int, n as int, dims as int, j)
                        + grams_in_bucket(b, n as int, i as int, dims as int, j),
                    !more ==> forall|j: int| 0 <= j < dims ==> #[trigger] counts@[j] == bucket_count(b, ngram_min as int, n as int, dims as int, j)
                        + grams_in_bucket(b, n as int, last + 1, dims as int, j),
                decreases 2 * (last - i) + if more { 1int } else { 0int },
            {
                let gram = slice_range(bytes, i, i + n);
                let h = fnv1a_hash_bytes(gram.as_slice());
                let idx = (h as usize) % dims;
                proof {
                    lemma_count_bound(b, ngram_min as int, n as int, dims as int, idx as int);
                    lemma_grams_bound(b, n as int, i as int, dims as int, idx as int);
                    assert((n - ngram_min) * (len + 1) <= (usize::MAX as int) * (usize::MAX as int + 1)) by (nonlinear_arith)
                        requires
                            0 <= n - ngram_min <= usize::MAX,
                            len <= usize::MAX,
                    ;
                    assert((usize::MAX as int) * (usize::MAX as int + 1) + usize::MAX < 0x1_0000_0000_0000_0000_0000_0000_0000_0000);
                }
                let c = counts[idx];
                counts.set(idx, c + 1);
                proof {
                    assert forall|j: int| 0 <= j < dims implies #[trigger] counts@[j] == bucket_count(b, ngram_min as int, n as int, dims as int, j)
                        + grams_in_bucket(b, n as int, i + 1, dims as int, j) by {
                        assert(b.subrange(i as int, i + n) == gram@);
                    }
                }
                if i < last {
                    i += 1;
                } else {
                    more = false;
                }
            }
        }
        proof {
            assert forall|j: int| 0 <= j < dims implies #[trigger] counts@[j] == bucket_count(b, ngram_min as int, n + 1, dims as int, j) by {}
        }
        if n < ngram_max {
            n += 1;
        } else {
            more_n = false;
        }
    }
    counts
}

/// The bytes `b[from..to]`, copied.
fn slice_range(b: &[u8], from: usize, to: usize) -> (r: Vec<u8>)
    requires
        from <= to <= b.len(),
    ensures
        r@ == b@.subrange(from as int, to as int),
{
    let mut out: Vec<u8> = Vec::new();
    let mut k: usize = from;
    while k < to
        invariant
            from <= k <= to <= b.len(),
            out@ == b@.subrange(from as int, k as int),
        decreases to - k,
    {
        out.push(b[k]);
        assert(b@.subrange(from as int, k + 1) =~= b@.subrange(from as int, k as int).push(b@[k as int]));
        k += 1;
    }
    out
}

} // verus!
