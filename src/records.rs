use vstd::prelude::*;
use crate::tokenize::views;
use vstd::slice::{slice_subrange, slice_to_vec};

verus! {

/// Little-endian value of the four bytes of `b` starting at `at`.
#[verifier::opaque]
pub open spec fn le_u32_at(b: Seq<u8>, at: int) -> u32 {
    (b[at] as u32) | ((b[at + 1] as u32) << 8u32) | ((b[at + 2] as u32) << 16u32) | ((
    b[at + 3] as u32) << 24u32)
}

/// Little-endian bytes of `n`.
pub open spec fn le_bytes(n: u32) -> Seq<u8> {
    seq![(n & 0xffu32) as u8, ((n >> 8u32) & 0xffu32) as u8, ((n >> 16u32) & 0xffu32) as u8, (n >> 24u32) as u8]
}

/// One record: the word's length as four little-endian bytes, then the word.
pub open spec fn encode_record(w: Seq<u8>) -> Seq<u8> {
    le_bytes(w.len() as u32) + w
}

/// The records of `ws`, one after another, with no separators.
pub open spec fn encode_all(ws: Seq<Seq<u8>>) -> Seq<u8>
    decreases ws.len(),
{
    if ws.len() == 0 {
        Seq::empty()
    } else {
        encode_record(ws[0]) + encode_all(ws.drop_first())
    }
}

/// Each word is short enough for its length to fit in four bytes.
pub open spec fn lengths_fit(ws: Seq<Seq<u8>>) -> bool {
    forall|i: int| 0 <= i < ws.len() ==> #[trigger] ws[i].len() <= u32::MAX
}

/// The words read from `buf` starting at `pos`, up to its end or up to the
/// first record that the buffer holds only in part.
pub open spec fn decode_from(buf: Seq<u8>, pos: int) -> Seq<Seq<u8>>
    decreases buf.len() - pos,
{
    if pos < 0 || pos + 4 > buf.len() {
        Seq::empty()
    } else {
        let n = le_u32_at(buf, pos) as int;
        if pos + 4 + n > buf.len() {
            Seq::empty()
        } else {
            seq![buf.subrange(pos + 4, pos + 4 + n)] + decode_from(buf, pos + 4 + n)
        }
    }
}

proof fn lemma_le_round_trip(n: u32)
    ensures
        le_u32_at(le_bytes(n), 0) == n,
{
    let b = le_bytes(n);
    let b0 = b[0];
    let b1 = b[1];
    let b2 = b[2];
    let b3 = b[3];
    reveal(le_u32_at);
    assert(((b0 as u32) | ((b1 as u32) << 8u32) | ((b2 as u32) << 16u32) | ((b3 as u32) << 24u32))
        == n) by (bit_vector)
        requires
            b0 == (n & 0xffu32) as u8,
            b1 == ((n >> 8u32) & 0xffu32) as u8,
            b2 == ((n >> 16u32) & 0xffu32) as u8,
            b3 == (n >> 24u32) as u8,
    ;
}

/// Decoding skips a prefix that it starts after.
proof fn lemma_decode_shift(pre: Seq<u8>, y: Seq<u8>, k: int)
    requires
        0 <= k <= y.len(),
    ensures
        decode_from(pre + y, pre.len() + k) == decode_from(y, k),
    decreases y.len() - k,
{
    let b = pre + y;
    let p = pre.len() + k;
    if k + 4 <= y.len() {
        assert(b[p] == y[k] && b[p + 1] == y[k + 1] && b[p + 2] == y[k + 2] && b[p + 3] == y[k + 3]);
        assert(le_u32_at(b, p) == le_u32_at(y, k)) by {
            reveal(le_u32_at);
        }
        let n = le_u32_at(y, k) as int;
        if k + 4 + n <= y.len() {
            assert(b.subrange(p + 4, p + 4 + n) =~= y.subrange(k + 4, k + 4 + n));
            lemma_decode_shift(pre, y, k + 4 + n);
        }
    }
}

/// Decoding the encoding of a word list gives the list back.
pub proof fn lemma_decode_encode(ws: Seq<Seq<u8>>)
    requires
        lengths_fit(ws),
    ensures
        decode_from(encode_all(ws), 0) == ws,
    decreases ws.len(),
{
    if ws.len() > 0 {
        let w = ws[0];
        let rest = ws.drop_first();
        assert(lengths_fit(rest)) by {
            assert forall|i: int| 0 <= i < rest.len() implies #[trigger] rest[i].len() <= u32::MAX by {
                assert(rest[i] == ws[i + 1]);
            }
        }
        lemma_decode_encode(rest);
        let pre = encode_record(w);
        let tail = encode_all(rest);
        let b = pre + tail;
        assert(encode_all(ws) == b);
        lemma_le_round_trip(w.len() as u32);
        assert(b[0] == pre[0] && b[1] == pre[1] && b[2] == pre[2] && b[3] == pre[3]);
        assert(le_u32_at(b, 0) == le_u32_at(le_bytes(w.len() as u32), 0)) by {
            reveal(le_u32_at);
        }
        let n = w.len() as int;
        assert(pre.len() == 4 + n);
        assert(b.subrange(4, 4 + n) =~= w);
        lemma_decode_shift(pre, tail, 0);
        assert(decode_from(b, 4 + n) == rest);
        assert(decode_from(b, 0) == seq![w] + decode_from(b, 4 + n));
        assert(seq![w] + rest =~= ws);
    } else {
        assert(ws =~= Seq::<Seq<u8>>::empty());
    }
}

proof fn lemma_encode_push(ws: Seq<Seq<u8>>, w: Seq<u8>)
    ensures
        encode_all(ws.push(w)) == encode_all(ws) + encode_record(w),
    decreases ws.len(),
{
    if ws.len() == 0 {
        assert(ws.push(w).drop_first() =~= Seq::<Seq<u8>>::empty());
        assert(ws.push(w)[0] == w);
        assert(encode_all(ws.push(w)) == encode_record(w) + encode_all(Seq::<Seq<u8>>::empty()));
        assert(encode_all(ws.push(w)) =~= encode_all(ws) + encode_record(w));
    } else {
        assert(ws.push(w).drop_first() =~= ws.drop_first().push(w));
        lemma_encode_push(ws.drop_first(), w);
        assert(ws.push(w)[0] == ws[0]);
        assert(encode_all(ws.push(w)) == encode_record(ws[0]) + encode_all(ws.drop_first().push(w)));
        assert(encode_all(ws.push(w)) =~= encode_all(ws) + encode_record(w));
    }
}

/// Serializes `words` as consecutive records, each a four-byte little-endian
/// length followed by the word's bytes.
/// Returns `None` when some word is too long for a four-byte length.
pub fn encode_records(words: &Vec<Vec<u8>>) -> (r: Option<Vec<u8>>)
    ensures
        r is Some <==> lengths_fit(views(words@)),
        r matches Some(e) ==> e@ == encode_all(views(words@)),
{
    let mut q: usize = 0;
    while q < words.len()
        invariant
            q <= words@.len(),
            forall|i: int| 0 <= i < q ==> #[trigger] views(words@)[i].len() <= u32::MAX,
        decreases words@.len() - q,
    {
        if words[q].len() > u32::MAX as usize {
            assert(views(words@)[q as int].len() > u32::MAX);
            return None;
        }
        q = q + 1;
    }
    let mut out: Vec<u8> = Vec::new();
    let mut i: usize = 0;
    proof {
        assert(views(words@).take(0) =~= Seq::<Seq<u8>>::empty());
    }
    while i < words.len()
        invariant
            i <= words@.len(),
            lengths_fit(views(words@)),
            out@ == encode_all(views(words@).take(i as int)),
        decreases words@.len() - i,
    {
        let w = &words[i];
        assert(views(words@)[i as int] == w@);
        let n = w.len() as u32;
        let ghost o0 = out@;
        out.push((n & 0xff) as u8);
        out.push(((n >> 8) & 0xff) as u8);
        out.push(((n >> 16) & 0xff) as u8);
        out.push((n >> 24) as u8);
        let mut j: usize = 0;
        while j < w.len()
            invariant
                j <= w@.len(),
                out@ == o0 + le_bytes(n) + w@.take(j as int),
            decreases w@.len() - j,
        {
            out.push(w[j]);
            proof {
                assert(w@.take(j + 1) =~= w@.take(j as int).push(w@[j as int]));
                assert(out@ =~= o0 + le_bytes(n) + w@.take(j + 1));
            }
            j = j + 1;
        }
        proof {
            assert(w@.take(j as int) =~= w@);
            assert(views(words@).take(i + 1) =~= views(words@).take(i as int).push(w@));
            lemma_encode_push(views(words@).take(i as int), w@);
            assert(out@ =~= encode_all(views(words@).take(i + 1)));
        }
        i = i + 1;
    }
    proof {
        assert(views(words@).take(i as int) =~= views(words@));
    }
    Some(out)
}

/// Reads the record that starts at `*pos`. When the buffer holds all of it,
/// returns its word and moves `*pos` past it. Otherwise returns `None`:
/// `*pos` stays where it was when fewer than four bytes are left, and moves
/// past the length field when the word itself is cut short.
pub fn read_next_record(buf: &[u8], pos: &mut usize) -> (r: Option<Vec<u8>>)
    requires
        *old(pos) <= buf@.len(),
    ensures
        *old(pos) + 4 > buf@.len() ==> r is None && *final(pos) == *old(pos),
        *old(pos) + 4 <= buf@.len() ==> ({
            let n = le_u32_at(buf@, *old(pos) as int) as int;
            if *old(pos) + 4 + n > buf@.len() {
                r is None && *final(pos) == *old(pos) + 4
            } else {
                r matches Some(w) && w@ == buf@.subrange(*old(pos) + 4, *old(pos) + 4 + n)
                    && *final(pos) == *old(pos) + 4 + n
            }
        }),
{
    let len = buf.len();
    if len - *pos < 4 {
        return None;
    }
    let p = *pos;
    let n = (buf[p] as u32) | ((buf[p + 1] as u32) << 8) | ((buf[p + 2] as u32) << 16) | ((
    buf[p + 3] as u32) << 24);
    proof {
        reveal(le_u32_at);
    }
    *pos = p + 4;
    if len - (p + 4) < n as usize {
        return None;
    }
    let w = slice_to_vec(slice_subrange(buf, p + 4, p + 4 + n as usize));
    *pos = p + 4 + n as usize;
    Some(w)
}

/// Reads every record of `buf` from the start, up to its end or up to the
/// first record that it holds only in part.
pub fn decode_records(buf: &[u8]) -> (r: Vec<Vec<u8>>)
    ensures
        views(r@) == decode_from(buf@, 0),
{
    let mut out: Vec<Vec<u8>> = Vec::new();
    let mut pos: usize = 0;
    let mut done = false;
    proof {
        assert(views(out@) + decode_from(buf@, 0) =~= decode_from(buf@, 0));
    }
    while !done
        invariant
            pos <= buf@.len(),
            done ==> decode_from(buf@, pos as int) == Seq::<Seq<u8>>::empty(),
            views(out@) + decode_from(buf@, pos as int) == decode_from(buf@, 0),
        decreases buf@.len() - pos + if done {
            0int
        } else {
            1int
        },
    {
        let p0 = pos;
        let ghost o0 = out@;
        match read_next_record(buf, &mut pos) {
            Some(w) => {
                out.push(w);
                proof {
                    assert(views(out@) =~= views(o0).push(w@));
                    assert(decode_from(buf@, p0 as int) == seq![w@] + decode_from(buf@, pos as int));
                    assert(views(out@) + decode_from(buf@, pos as int) =~= views(o0) + decode_from(
                        buf@,
                        p0 as int,
                    ));
                }
            },
            None => {
                proof {
                    assert(decode_from(buf@, p0 as int) == Seq::<Seq<u8>>::empty());
                    assert(views(o0) + Seq::<Seq<u8>>::empty() =~= views(o0));
                }
                pos = p0;
                done = true;
            },
        }
    }
    proof {
        assert(views(out@) + Seq::<Seq<u8>>::empty() =~= views(out@));
    }
    out
}

/// A reduced partition keeps its order through the binary file: the records
/// of the encoding of a strictly ascending word list read back strictly
/// ascending, with the same words.
pub proof fn lemma_encoded_partition_sorted(ws: Seq<Seq<u8>>)
    requires
        crate::order::strictly_sorted(ws),
        lengths_fit(ws),
    ensures
        crate::order::strictly_sorted(decode_from(encode_all(ws), 0)),
        decode_from(encode_all(ws), 0).to_set() == ws.to_set(),
{
    lemma_decode_encode(ws);
}

} // verus!
