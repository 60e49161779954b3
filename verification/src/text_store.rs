//! The layout of the text store: the texts of chunks written one after
//! another, each followed by a newline, with every chunk recording the byte
//! offset and length of its text so that the text can leave memory.
use vstd::prelude::*;
use vstd::utf8::{decode_utf8, encode_utf8, valid_utf8};
use crate::processing::Chunk;
use crate::text::{byte_len, lemma_byte_len_encode};

verus! {

/// The result of `String::from_utf8_lossy` on `bytes`.
pub uninterp spec fn utf8_lossy(bytes: Seq<u8>) -> Seq<char>;

/// `String::from_utf8_lossy`, owned: the text of `bytes`, with each
/// invalid sequence replaced by U+FFFD. The contract names the result and
/// states what the documentation says of valid input: it is decoded as is.
#[verifier::external_body]
pub(crate) fn text_from_bytes(bytes: &[u8]) -> (r: String)
    ensures
        r@ == utf8_lossy(bytes@),
        valid_utf8(bytes@) ==> r@ == decode_utf8(bytes@),
{
    String::from_utf8_lossy(bytes).to_string()
}

/// The bytes a text occupies in the store: its UTF-8 encoding and a newline.
pub open spec fn stored_bytes(t: Seq<char>) -> Seq<u8> {
    encode_utf8(t).push(10u8)
}

/// How far the cursor advances past a text: its byte length, as the
/// `u32` the chunk records, plus the newline.
pub open spec fn advance(t: Seq<char>) -> int {
    (byte_len(t) as u32) as int + 1
}

/// The bytes of a sequence of texts written one after another.
pub open spec fn store_bytes(texts: Seq<Seq<char>>) -> Seq<u8>
    decreases texts.len(),
{
    if texts.len() == 0 {
        Seq::empty()
    } else {
        store_bytes(texts.drop_last()) + stored_bytes(texts.last())
    }
}

/// The cursor after writing `texts` from `start`.
pub open spec fn cursor_after(texts: Seq<Seq<char>>, start: int) -> int
    decreases texts.len(),
{
    if texts.len() == 0 {
        start
    } else {
        cursor_after(texts.drop_last(), start) + advance(texts.last())
    }
}

/// The texts of the chunks from position `from` on.
pub open spec fn texts_from(chunks: Seq<Chunk>, from: int) -> Seq<Seq<char>> {
    chunks.subrange(from, chunks.len() as int).map_values(|c: Chunk| c.text@)
}

/// Chunk `c` after its text `t` was moved to the store at `offset`: same
/// identifier, normalised text, tokens and positions, no text in memory,
/// and the text's place recorded.
pub open spec fn moved_out(before: Chunk, after: Chunk, offset: int) -> bool {
    &&& after.id == before.id
    &&& after.clean == before.clean
    &&& after.tokens == before.tokens
    &&& after.positions == before.positions
    &&& after.text@.len() == 0
    &&& after.text_offset == offset
    &&& after.text_len == byte_len(before.text@) as u32
}

/// Moves the texts of the chunks from position `from` on into the store,
/// which so far ends at byte `start`: returns the bytes to append and the
/// new end of the store; each chunk records where its text lies and no
/// longer holds it.
pub fn store_texts(chunks: &mut Vec<Chunk>, from: usize, start: u64) -> (r: (Vec<u8>, u64))
    requires
        from <= old(chunks)@.len(),
        cursor_after(texts_from(old(chunks)@, from as int), start as int) <= u64::MAX,
    ensures
        final(chunks)@.len() == old(chunks)@.len(),
        forall|k: int| 0 <= k < from ==> #[trigger] final(chunks)@[k] == old(chunks)@[k],
        forall|k: int|
            from <= k < old(chunks)@.len() ==> moved_out(
                old(chunks)@[k],
                #[trigger] final(chunks)@[k],
                cursor_after(texts_from(old(chunks)@, from as int).take(k - from), start as int),
            ),
        r.0@ == store_bytes(texts_from(old(chunks)@, from as int)),
        r.1 == cursor_after(texts_from(old(chunks)@, from as int), start as int),
{
    let ghost c0 = chunks@;
    let ghost ts = texts_from(c0, from as int);
    let mut out: Vec<u8> = Vec::new();
    let mut cursor: u64 = start;
    let mut i: usize = from;
    proof {
        assert(ts.take(0) =~= Seq::<Seq<char>>::empty());
        lemma_cursor_prefix(ts, start as int, 0, ts.len() as int);
    }
    while i < chunks.len()
        invariant
            from <= i <= chunks@.len(),
            chunks@.len() == c0.len(),
            ts == texts_from(c0, from as int),
            ts.len() == c0.len() - from,
            cursor_after(ts, start as int) <= u64::MAX,
            forall|k: int| 0 <= k < from ==> #[trigger] chunks@[k] == c0[k],
            forall|k: int| i <= k < c0.len() ==> #[trigger] chunks@[k] == c0[k],
            forall|k: int|
                from <= k < i ==> moved_out(
                    c0[k],
                    #[trigger] chunks@[k],
                    cursor_after(ts.take(k - from), start as int),
                ),
            out@ == store_bytes(ts.take(i - from)),
            cursor == cursor_after(ts.take(i - from), start as int),
        decreases chunks.len() - i,
    {
        let ghost j = i - from;
        proof {
            assert(ts[j] == c0[i as int].text@);
            assert(ts.take(j + 1).drop_last() =~= ts.take(j));
            assert(ts.take(j + 1).last() == ts[j]);
            lemma_cursor_prefix(ts, start as int, j + 1, ts.len() as int);
        }
        let bytes = chunks[i].text.as_str().as_bytes();
        proof {
            lemma_byte_len_encode(chunks@[i as int].text@);
            assert(bytes@ == encode_utf8(ts[j]));
            assert(bytes@.len() == byte_len(ts[j]));
            assert(cursor_after(ts.take(j + 1), start as int) == cursor + advance(ts[j]));
            assert(ts.take(ts.len() as int) =~= ts);
            assert(cursor + advance(ts[j]) <= u64::MAX);
        }
        let len = bytes.len() as u32;
        let mut k: usize = 0;
        let ghost o0 = out@;
        while k < bytes.len()
            invariant
                k <= bytes.len(),
                out@ == o0 + bytes@.take(k as int),
            decreases bytes.len() - k,
        {
            out.push(bytes[k]);
            assert(bytes@.take(k + 1) =~= bytes@.take(k as int).push(bytes@[k as int]));
            k += 1;
        }
        out.push(10u8);
        proof {
            assert(bytes@.take(bytes@.len() as int) =~= bytes@);
            assert(out@ =~= store_bytes(ts.take(j + 1)));
        }
        let mut c = chunks.remove(i);
        let ghost before = c;
        c.text_offset = cursor;
        c.text_len = len;
        c.text = String::new();
        chunks.insert(i, c);
        cursor = cursor + len as u64 + 1;
        proof {
            assert(moved_out(c0[i as int], chunks@[i as int], cursor_after(ts.take(j), start as int)));
            assert forall|k: int| from <= k < i implies moved_out(
                c0[k],
                #[trigger] chunks@[k],
                cursor_after(ts.take(k - from), start as int),
            ) by {}
        }
        i += 1;
    }
    proof {
        assert(ts.take(ts.len() as int) =~= ts);
    }
    (out, cursor)
}

proof fn lemma_cursor_ge(ts: Seq<Seq<char>>, start: int)
    ensures
        start <= cursor_after(ts, start),
    decreases ts.len(),
{
    if ts.len() > 0 {
        lemma_cursor_ge(ts.drop_last(), start);
    }
}

proof fn lemma_cursor_prefix(ts: Seq<Seq<char>>, start: int, a: int, b: int)
    requires
        0 <= a <= b <= ts.len(),
    ensures
        start <= cursor_after(ts.take(a), start) <= cursor_after(ts.take(b), start),
    decreases b - a,
{
    lemma_cursor_ge(ts.take(a), start);
    if a < b {
        lemma_cursor_prefix(ts, start, a, b - 1);
        assert(ts.take(b).drop_last() =~= ts.take(b - 1));
    }
}

proof fn lemma_store_len(ts: Seq<Seq<char>>, start: int)
    requires
        forall|k: int| 0 <= k < ts.len() ==> byte_len(#[trigger] ts[k]) <= u32::MAX,
    ensures
        store_bytes(ts).len() == cursor_after(ts, start) - start,
    decreases ts.len(),
{
    if ts.len() > 0 {
        let init = ts.drop_last();
        assert forall|k: int| 0 <= k < init.len() implies byte_len(#[trigger] init[k]) <= u32::MAX by {
            assert(init[k] == ts[k]);
        }
        lemma_store_len(init, start);
        lemma_byte_len_encode(ts.last());
        assert(ts[ts.len() - 1] == ts.last());
    }
}

/// The bytes at `offset` with length `len` in the store's bytes, if the
/// length is not zero and the range lies inside.
pub open spec fn stored_range(store: Seq<u8>, offset: int, len: int) -> Option<Seq<u8>> {
    if len == 0 || offset + len > store.len() {
        None
    } else {
        Some(store.subrange(offset, offset + len))
    }
}

/// The text stored at `offset` with length `len` in the store's bytes:
/// none for an empty length or a range past the end, else the range read as
/// UTF-8, replacing invalid sequences.
pub fn text_at(store: &[u8], offset: u64, len: u32) -> (r: Option<String>)
    ensures
        match r {
            Some(s) => stored_range(store@, offset as int, len as int) is Some && s@ == utf8_lossy(
                stored_range(store@, offset as int, len as int).unwrap(),
            ) && (valid_utf8(stored_range(store@, offset as int, len as int).unwrap()) ==> s@ == decode_utf8(
                stored_range(store@, offset as int, len as int).unwrap(),
            )),
            None => stored_range(store@, offset as int, len as int) is None,
        },
{
    if len == 0 {
        return None;
    }
    let end: u128 = offset as u128 + len as u128;
    if end > store.len() as u128 {
        return None;
    }
    let start = offset as usize;
    let stop = start + len as usize;
    let mut buf: Vec<u8> = Vec::new();
    let mut k: usize = start;
    while k < stop
        invariant
            start <= k <= stop <= store@.len(),
            buf@ == store@.subrange(start as int, k as int),
        decreases stop - k,
    {
        buf.push(store[k]);
        assert(store@.subrange(start as int, k + 1) =~= store@.subrange(start as int, k as int).push(store@[k as int]));
        k += 1;
    }
    Some(text_from_bytes(buf.as_slice()))
}

/// Where the `i`-th text lies in the bytes of texts written one after
/// another: its UTF-8 encoding starts at its offset from the first one.
proof fn lemma_store_layout(ts: Seq<Seq<char>>, start: int, i: int)
    requires
        0 <= i < ts.len(),
        forall|k: int| 0 <= k < ts.len() ==> byte_len(#[trigger] ts[k]) <= u32::MAX,
    ensures
        store_bytes(ts).len() == cursor_after(ts, start) - start,
        start <= cursor_after(ts.take(i), start),
        cursor_after(ts.take(i), start) - start + byte_len(ts[i]) <= store_bytes(ts).len(),
        store_bytes(ts).subrange(
            cursor_after(ts.take(i), start) - start,
            cursor_after(ts.take(i), start) - start + byte_len(ts[i]),
        ) == encode_utf8(ts[i]),
    decreases ts.len(),
{
    let init = ts.drop_last();
    assert forall|k: int| 0 <= k < init.len() implies byte_len(#[trigger] init[k]) <= u32::MAX by {
        assert(init[k] == ts[k]);
    }
    lemma_store_len(ts, start);
    lemma_store_len(init, start);
    lemma_cursor_ge(ts.take(i), start);
    lemma_byte_len_encode(ts.last());
    assert(ts[ts.len() - 1] == ts.last());
    let b = store_bytes(ts);
    let b0 = store_bytes(init);
    assert(b == b0 + stored_bytes(ts.last()));
    if i == ts.len() - 1 {
        assert(ts.take(i) =~= init);
        let o = b0.len() as int;
        assert(cursor_after(ts.take(i), start) - start == o);
        assert(b.subrange(o, o + byte_len(ts[i]) as int) =~= encode_utf8(ts[i]));
    } else {
        lemma_store_layout(init, start, i);
        assert(init.take(i) =~= ts.take(i));
        assert(init[i] == ts[i]);
        let o = cursor_after(ts.take(i), start) - start;
        assert(o + byte_len(ts[i]) <= b0.len());
        assert(b.subrange(o, o + byte_len(ts[i])) =~= b0.subrange(o, o + byte_len(ts[i])));
    }
}

/// A text moved into the store reads back unchanged: when the store's bytes
/// from `start` on are the bytes `store_texts` returned, the range at the
/// offset and length its chunk records holds the text's UTF-8 encoding, which
/// decodes to the text (for texts of at most `u32::MAX` bytes).
pub proof fn lemma_stored_text_reads_back(prefix: Seq<u8>, ts: Seq<Seq<char>>, suffix: Seq<u8>, i: int)
    requires
        0 <= i < ts.len(),
        forall|k: int| 0 <= k < ts.len() ==> byte_len(#[trigger] ts[k]) <= u32::MAX,
        byte_len(ts[i]) > 0,
    ensures
        stored_range(
            prefix + store_bytes(ts) + suffix,
            cursor_after(ts.take(i), prefix.len() as int),
            (byte_len(ts[i]) as u32) as int,
        ) == Some(encode_utf8(ts[i])),
        valid_utf8(encode_utf8(ts[i])),
        decode_utf8(encode_utf8(ts[i])) == ts[i],
{
    let start = prefix.len() as int;
    lemma_store_layout(ts, start, i);
    lemma_cursor_ge(ts.take(i), start);
    let whole = prefix + store_bytes(ts) + suffix;
    let o = cursor_after(ts.take(i), start);
    let n = byte_len(ts[i]) as int;
    assert(whole.subrange(o, o + n) =~= store_bytes(ts).subrange(o - start, o - start + n));
    vstd::utf8::encode_utf8_valid_utf8(ts[i]);
    vstd::utf8::encode_utf8_decode_utf8(ts[i]);
}

} // verus!
