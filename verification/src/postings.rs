//! The on-disk layout of posting lists: each posting is a document number
//! and a term frequency, both little-endian `u32`, and a term's list is
//! found in the postings file by its byte offset and its number of postings.
use vstd::prelude::*;

verus! {

/// Where a term's posting list lies in the postings file, and its document
/// frequency.
#[derive(Clone, Debug)]
pub struct TermMeta {
    pub df: u32,
    pub offset: u64,
    pub len: u32,
}

/// A term of the index: its document frequency and either its postings in
/// memory or where they lie in the postings file.
#[derive(Clone, Debug)]
pub struct TermEntry {
    pub df: u32,
    pub postings: Option<Vec<(u32, u32)>>,
    pub offset: u64,
    pub len: u32,
}

/// The four little-endian bytes of `x`.
pub open spec fn u32_le(x: u32) -> Seq<u8> {
    seq![
        (x % 256) as u8,
        ((x / 256) % 256) as u8,
        ((x / 65536) % 256) as u8,
        (x / 16777216) as u8,
    ]
}

/// The `u32` whose little-endian bytes start at `i` in `b`.
pub open spec fn read_u32_le(b: Seq<u8>, i: int) -> u32 {
    (b[i] as int + b[i + 1] as int * 256 + b[i + 2] as int * 65536 + b[i + 3] as int * 16777216) as u32
}

/// The bytes of a posting list: for each posting, its document number then
/// its term frequency.
pub open spec fn encode_postings(p: Seq<(u32, u32)>) -> Seq<u8>
    decreases p.len(),
{
    if p.len() == 0 {
        Seq::empty()
    } else {
        encode_postings(p.drop_last()) + u32_le(p.last().0) + u32_le(p.last().1)
    }
}

/// The `len` postings stored at byte `offset` of `buf`, or none when they
/// do not all lie inside it.
pub open spec fn postings_at(buf: Seq<u8>, offset: int, len: int) -> Seq<(u32, u32)> {
    if offset + 8 * len > buf.len() {
        Seq::empty()
    } else {
        Seq::new(
            len as nat,
            |k: int| (read_u32_le(buf, offset + 8 * k), read_u32_le(buf, offset + 8 * k + 4)),
        )
    }
}

/// Reading back the bytes of a `u32` gives the `u32`.
pub proof fn lemma_u32_le_roundtrip(x: u32)
    ensures
        read_u32_le(u32_le(x), 0) == x,
{
    assert(x % 256 + ((x / 256) % 256) * 256 + ((x / 65536) % 256) * 65536 + (x / 16777216)
        * 16777216 == x) by (bit_vector);
    assert(x / 16777216 < 256) by (bit_vector);
}

/// The encoding of a posting list has eight bytes per posting.
pub proof fn lemma_encode_len(p: Seq<(u32, u32)>)
    ensures
        encode_postings(p).len() == 8 * p.len(),
    decreases p.len(),
{
    if p.len() > 0 {
        lemma_encode_len(p.drop_last());
    }
}

/// Posting `k` of a list is encoded at byte `8 * k` of its encoding.
proof fn lemma_encode_at(p: Seq<(u32, u32)>, k: int)
    requires
        0 <= k < p.len(),
    ensures
        encode_postings(p).len() == 8 * p.len(),
        encode_postings(p).subrange(8 * k, 8 * k + 4) == u32_le(p[k].0),
        encode_postings(p).subrange(8 * k + 4, 8 * k + 8) == u32_le(p[k].1),
    decreases p.len(),
{
    lemma_encode_len(p);
    lemma_encode_len(p.drop_last());
    let e = encode_postings(p);
    let e0 = encode_postings(p.drop_last());
    if k == p.len() - 1 {
        assert(e.subrange(8 * k, 8 * k + 4) =~= u32_le(p[k].0));
        assert(e.subrange(8 * k + 4, 8 * k + 8) =~= u32_le(p[k].1));
    } else {
        lemma_encode_at(p.drop_last(), k);
        assert(e.subrange(8 * k, 8 * k + 4) =~= e0.subrange(8 * k, 8 * k + 4));
        assert(e.subrange(8 * k + 4, 8 * k + 8) =~= e0.subrange(8 * k + 4, 8 * k + 8));
    }
}

/// A posting list written into a buffer is read back unchanged from its
/// offset, whatever lies before and after it.
pub proof fn lemma_postings_roundtrip(prefix: Seq<u8>, p: Seq<(u32, u32)>, suffix: Seq<u8>)
    ensures
        postings_at(prefix + encode_postings(p) + suffix, prefix.len() as int, p.len() as int) == p,
{
    let buf = prefix + encode_postings(p) + suffix;
    let o = prefix.len() as int;
    lemma_encode_len(p);
    let r = postings_at(buf, o, p.len() as int);
    assert forall|k: int| 0 <= k < p.len() implies #[trigger] r[k] == p[k] by {
        lemma_encode_at(p, k);
        let e = encode_postings(p);
        let d = e.subrange(8 * k, 8 * k + 4);
        let t = e.subrange(8 * k + 4, 8 * k + 8);
        lemma_u32_le_roundtrip(p[k].0);
        lemma_u32_le_roundtrip(p[k].1);
        assert(buf[o + 8 * k] == d[0]);
        assert(buf[o + 8 * k + 1] == d[1]);
        assert(buf[o + 8 * k + 2] == d[2]);
        assert(buf[o + 8 * k + 3] == d[3]);
        assert(buf[o + 8 * k + 4] == t[0]);
        assert(buf[o + 8 * k + 5] == t[1]);
        assert(buf[o + 8 * k + 6] == t[2]);
        assert(buf[o + 8 * k + 7] == t[3]);
        assert(read_u32_le(buf, o + 8 * k) == read_u32_le(d, 0));
        assert(read_u32_le(buf, o + 8 * k + 4) == read_u32_le(t, 0));
    }
    assert(r =~= p);
}

/// The little-endian bytes of `x`, appended to `out`.
fn push_u32_le(out: &mut Vec<u8>, x: u32)
    ensures
        final(out)@ == old(out)@ + u32_le(x),
{
    out.push((x % 256) as u8);
    out.push(((x / 256) % 256) as u8);
    out.push(((x / 65536) % 256) as u8);
    out.push((x / 16777216) as u8);
    assert(final(out)@ =~= old(out)@ + u32_le(x));
}

/// The bytes of a posting list, as the postings file stores it.
pub fn encode_postings_bytes(p: &[(u32, u32)]) -> (r: Vec<u8>)
    ensures
        r@ == encode_postings(p@),
{
    let mut out: Vec<u8> = Vec::new();
    let mut i: usize = 0;
    while i < p.len()
        invariant
            i <= p.len(),
            out@ == encode_postings(p@.take(i as int)),
        decreases p.len() - i,
    {
        let (d, t) = p[i];
        push_u32_le(&mut out, d);
        push_u32_le(&mut out, t);
        assert(p@.take(i + 1).drop_last() =~= p@.take(i as int));
        i += 1;
    }
    assert(p@.take(p@.len() as int) =~= p@);
    out
}

/// The `u32` whose little-endian bytes start at `i` in `b`.
fn read_u32_at(b: &[u8], i: usize) -> (r: u32)
    requires
        i + 4 <= b.len(),
    ensures
        r == read_u32_le(b@, i as int),
{
    let v: u64 = b[i] as u64 + b[i + 1] as u64 * 256 + b[i + 2] as u64 * 65536 + b[i + 3] as u64
        * 16777216;
    v as u32
}

/// The `len` postings stored at byte `offset` of `buf`; none when they do
/// not all lie inside it.
pub fn postings_from_raw(buf: &[u8], offset: u64, len: u32) -> (r: Vec<(u32, u32)>)
    ensures
        r@ == postings_at(buf@, offset as int, len as int),
{
    let end: u128 = offset as u128 + len as u128 * 8;
    if end > buf.len() as u128 {
        return Vec::new();
    }
    let start = offset as usize;
    let mut out: Vec<(u32, u32)> = Vec::new();
    let n = len as usize;
    let mut i: usize = 0;
    while i < n
        invariant
            start == offset,
            n == len,
            start + 8 * n <= buf.len(),
            i <= n,
            out@.len() == i,
            forall|k: int| 0 <= k < i ==> #[trigger] out@[k] == postings_at(buf@, offset as int, len as int)[k],
        decreases n - i,
    {
        let base = start + i * 8;
        let doc_id = read_u32_at(buf, base);
        let tf = read_u32_at(buf, base + 4);
        out.push((doc_id, tf));
        i += 1;
    }
    assert(out@ =~= postings_at(buf@, offset as int, len as int));
    out
}

/// Where each of a sequence of posting lists lies when they are written one
/// after another from byte `start`: the term metadata, with the document
/// frequency set to the list's length.
pub open spec fn layout_metas(lists: Seq<Seq<(u32, u32)>>, start: int) -> Seq<(u32, int, u32)>
    decreases lists.len(),
{
    if lists.len() == 0 {
        Seq::empty()
    } else {
        let prev = layout_metas(lists.drop_last(), start);
        let off = start + 8 * total_postings(lists.drop_last());
        prev.push((lists.last().len() as u32, off, lists.last().len() as u32))
    }
}

/// Number of postings in a sequence of lists.
pub open spec fn total_postings(lists: Seq<Seq<(u32, u32)>>) -> int
    decreases lists.len(),
{
    if lists.len() == 0 {
        0
    } else {
        total_postings(lists.drop_last()) + (lists.last().len() as u32) as int
    }
}

/// The bytes of a sequence of posting lists written one after another.
pub open spec fn encode_all(lists: Seq<Seq<(u32, u32)>>) -> Seq<u8>
    decreases lists.len(),
{
    if lists.len() == 0 {
        Seq::empty()
    } else {
        encode_all(lists.drop_last()) + encode_postings(lists.last())
    }
}

proof fn lemma_encode_all_len(lists: Seq<Seq<(u32, u32)>>)
    requires
        forall|j: int| 0 <= j < lists.len() ==> #[trigger] lists[j].len() <= u32::MAX,
    ensures
        encode_all(lists).len() == 8 * total_postings(lists),
        total_postings(lists) >= 0,
    decreases lists.len(),
{
    if lists.len() > 0 {
        let init = lists.drop_last();
        assert forall|j: int| 0 <= j < init.len() implies #[trigger] init[j].len() <= u32::MAX by {
            assert(init[j] == lists[j]);
        }
        lemma_encode_all_len(init);
        lemma_encode_len(lists.last());
        assert(lists[lists.len() - 1].len() <= u32::MAX);
    }
}

/// Every list of a postings file written by `layout_postings` is read back
/// unchanged from the offset and length recorded for it.
pub proof fn lemma_layout_roundtrip(lists: Seq<Seq<(u32, u32)>>, i: int)
    requires
        0 <= i < lists.len(),
        forall|j: int| 0 <= j < lists.len() ==> #[trigger] lists[j].len() <= u32::MAX,
    ensures
        layout_metas(lists, 0).len() == lists.len(),
        layout_metas(lists, 0)[i].2 == lists[i].len(),
        0 <= layout_metas(lists, 0)[i].1,
        layout_metas(lists, 0)[i].1 + 8 * lists[i].len() <= encode_all(lists).len(),
        postings_at(
            encode_all(lists),
            layout_metas(lists, 0)[i].1,
            layout_metas(lists, 0)[i].2 as int,
        ) == lists[i],
    decreases lists.len(),
{
    lemma_metas_len(lists, 0);
    let init = lists.drop_last();
    assert forall|j: int| 0 <= j < init.len() implies #[trigger] init[j].len() <= u32::MAX by {
        assert(init[j] == lists[j]);
    }
    assert(lists[lists.len() - 1].len() <= u32::MAX);
    if i == lists.len() - 1 {
        lemma_encode_all_len(init);
        lemma_encode_all_len(lists);
        lemma_postings_roundtrip(encode_all(init), lists.last(), Seq::empty());
        assert(encode_all(init) + encode_postings(lists.last()) + Seq::<u8>::empty() =~= encode_all(lists));
    } else {
        lemma_layout_roundtrip(init, i);
        lemma_metas_len(init, 0);
        let m = layout_metas(init, 0)[i];
        let e0 = encode_all(init);
        let e = encode_all(lists);
        lemma_encode_all_len(init);
        lemma_encode_len(lists.last());
        assert(layout_metas(lists, 0)[i] == m);
        assert(e.len() == e0.len() + encode_postings(lists.last()).len());
        let a = postings_at(e0, m.1, m.2 as int);
        let b = postings_at(e, m.1, m.2 as int);
        assert(m.1 + 8 * m.2 <= e0.len());
        assert forall|k: int| 0 <= k < m.2 implies #[trigger] b[k] == a[k] by {
            assert(e[m.1 + 8 * k] == e0[m.1 + 8 * k]);
            assert(e[m.1 + 8 * k + 1] == e0[m.1 + 8 * k + 1]);
            assert(e[m.1 + 8 * k + 2] == e0[m.1 + 8 * k + 2]);
            assert(e[m.1 + 8 * k + 3] == e0[m.1 + 8 * k + 3]);
            assert(e[m.1 + 8 * k + 4] == e0[m.1 + 8 * k + 4]);
            assert(e[m.1 + 8 * k + 5] == e0[m.1 + 8 * k + 5]);
            assert(e[m.1 + 8 * k + 6] == e0[m.1 + 8 * k + 6]);
            assert(e[m.1 + 8 * k + 7] == e0[m.1 + 8 * k + 7]);
        }
        assert(b =~= a);
        assert(init[i] == lists[i]);
    }
}

pub proof fn lemma_metas_len(lists: Seq<Seq<(u32, u32)>>, start: int)
    ensures
        layout_metas(lists, start).len() == lists.len(),
        forall|j: int| 0 <= j < lists.len() - 1 ==> #[trigger] layout_metas(lists, start)[j] == layout_metas(lists.drop_last(), start)[j],
    decreases lists.len(),
{
    if lists.len() > 0 {
        lemma_metas_len(lists.drop_last(), start);
    }
}

/// The views of a sequence of posting lists.
pub open spec fn lists_view(v: Seq<Vec<(u32, u32)>>) -> Seq<Seq<(u32, u32)>> {
    v.map_values(|l: Vec<(u32, u32)>| l@)
}

/// The view of term metadata: document frequency, offset, length.
pub open spec fn metas_view(v: Seq<TermMeta>) -> Seq<(u32, int, u32)> {
    v.map_values(|m: TermMeta| (m.df, m.offset as int, m.len))
}

/// Writes posting lists one after another, as the postings file holds
/// them, and records for each its offset, its length and, as document
/// frequency, its length again.
pub fn layout_postings(lists: &[Vec<(u32, u32)>]) -> (r: (Vec<TermMeta>, Vec<u8>))
    requires
        8 * total_postings(lists_view(lists@)) <= u64::MAX,
    ensures
        metas_view(r.0@) == layout_metas(lists_view(lists@), 0),
        r.1@ == encode_all(lists_view(lists@)),
{
    let ghost lv = lists_view(lists@);
    let mut metas: Vec<TermMeta> = Vec::new();
    let mut bytes: Vec<u8> = Vec::new();
    let mut offset: u64 = 0;
    let mut i: usize = 0;
    proof {
        lemma_total_prefix(lv, 0, lv.len() as int);
    }
    while i < lists.len()
        invariant
            lv == lists_view(lists@),
            8 * total_postings(lv) <= u64::MAX,
            i <= lists.len(),
            offset == 8 * total_postings(lv.take(i as int)),
            metas_view(metas@) == layout_metas(lv.take(i as int), 0),
            bytes@ == encode_all(lv.take(i as int)),
        decreases lists.len() - i,
    {
        let p = &lists[i];
        let len = p.len() as u32;
        proof {
            assert(lv.take(i + 1).drop_last() =~= lv.take(i as int));
            assert(lv.take(i + 1).last() == p@);
            lemma_total_prefix(lv, i + 1, lv.len() as int);
            assert(lv.take(lv.len() as int) =~= lv);
            assert(total_postings(lv.take(i + 1)) == total_postings(lv.take(i as int)) + len as int);
        }
        metas.push(TermMeta { df: len, offset, len });
        let enc = encode_postings_bytes(p.as_slice());
        let mut k: usize = 0;
        let ghost b0 = bytes@;
        while k < enc.len()
            invariant
                k <= enc.len(),
                bytes@ == b0 + enc@.take(k as int),
            decreases enc.len() - k,
        {
            bytes.push(enc[k]);
            assert(enc@.take(k + 1) =~= enc@.take(k as int).push(enc@[k as int]));
            k += 1;
        }
        assert(enc@.take(enc@.len() as int) =~= enc@);
        assert(metas_view(metas@) =~= layout_metas(lv.take(i + 1), 0));
        offset = offset + len as u64 * 8;
        i += 1;
    }
    assert(lv.take(lists@.len() as int) =~= lv);
    (metas, bytes)
}

proof fn lemma_total_prefix(lists: Seq<Seq<(u32, u32)>>, i: int, j: int)
    requires
        0 <= i <= j <= lists.len(),
    ensures
        0 <= total_postings(lists.take(i)) <= total_postings(lists.take(j)),
    decreases j - i,
{
    if i < j {
        assert(lists.take(j).drop_last() =~= lists.take(j - 1));
        lemma_total_prefix(lists, i, j - 1);
    } else {
        lemma_total_nonneg(lists.take(i));
    }
}

proof fn lemma_total_nonneg(lists: Seq<Seq<(u32, u32)>>)
    ensures
        total_postings(lists) >= 0,
    decreases lists.len(),
{
    if lists.len() > 0 {
        lemma_total_nonneg(lists.drop_last());
    }
}

} // verus!
