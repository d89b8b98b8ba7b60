use vstd::prelude::*;
use vstd::slice::{slice_subrange, slice_to_vec};

verus! {

/// Whitespace bytes that separate words: space, tab and newline.
pub open spec fn is_ws(b: u8) -> bool {
    b == 32u8 || b == 9u8 || b == 10u8
}

/// Length of the run of non-whitespace bytes that starts `s`.
pub open spec fn word_len(s: Seq<u8>) -> nat
    decreases s.len(),
{
    if s.len() == 0 || is_ws(s[0]) {
        0
    } else {
        1 + word_len(s.drop_first())
    }
}

/// The words of `s`: its maximal runs of non-whitespace bytes, in order.
pub open spec fn words_of(s: Seq<u8>) -> Seq<Seq<u8>>
    decreases s.len(),
    via words_of_decreases
{
    if s.len() == 0 {
        Seq::empty()
    } else if is_ws(s[0]) {
        words_of(s.drop_first())
    } else {
        seq![s.take(word_len(s) as int)] + words_of(s.skip(word_len(s) as int))
    }
}

#[via_fn]
proof fn words_of_decreases(s: Seq<u8>) {
    if s.len() != 0 && !is_ws(s[0]) {
        lemma_word_len_bounds(s);
    }
}

proof fn lemma_word_len_bounds(s: Seq<u8>)
    ensures
        word_len(s) <= s.len(),
        s.len() > 0 && !is_ws(s[0]) ==> word_len(s) >= 1,
    decreases s.len(),
{
    if s.len() != 0 && !is_ws(s[0]) {
        lemma_word_len_bounds(s.drop_first());
    }
}

/// The word length is the index of the first whitespace byte, or the length.
proof fn lemma_word_len_is_first_ws(s: Seq<u8>, i: int)
    requires
        0 <= i <= s.len(),
        forall|j: int| 0 <= j < i ==> !is_ws(#[trigger] s[j]),
        i == s.len() || is_ws(s[i]),
    ensures
        word_len(s) == i,
    decreases i,
{
    if i > 0 {
        lemma_word_len_is_first_ws(s.drop_first(), i - 1);
    }
}

proof fn lemma_word_len_at_least(s: Seq<u8>, i: int)
    requires
        0 <= i <= s.len(),
        forall|j: int| 0 <= j < i ==> !is_ws(#[trigger] s[j]),
    ensures
        word_len(s) >= i,
    decreases i,
{
    if i > 0 {
        lemma_word_len_at_least(s.drop_first(), i - 1);
    }
}

/// Word length of a concatenation whose second part starts at a boundary.
proof fn lemma_word_len_append(x: Seq<u8>, y: Seq<u8>)
    requires
        y.len() == 0 || is_ws(y[0]),
    ensures
        word_len(x + y) == word_len(x),
    decreases x.len(),
{
    if x.len() == 0 {
    } else if is_ws(x[0]) {
        assert((x + y)[0] == x[0]);
    } else {
        assert((x + y).drop_first() =~= x.drop_first() + y);
        lemma_word_len_append(x.drop_first(), y);
    }
}

/// Splitting at a whitespace byte (or at either end) splits the words.
pub proof fn lemma_words_of_append(x: Seq<u8>, y: Seq<u8>)
    requires
        x.len() == 0 || y.len() == 0 || is_ws(y[0]),
    ensures
        words_of(x + y) == words_of(x) + words_of(y),
    decreases x.len(),
{
    if x.len() == 0 {
        assert(x + y =~= y);
        assert(words_of(x) + words_of(y) =~= words_of(y));
    } else if y.len() == 0 {
        assert(x + y =~= x);
        assert(words_of(x) + words_of(y) =~= words_of(x));
    } else if is_ws(x[0]) {
        assert((x + y).drop_first() =~= x.drop_first() + y);
        lemma_words_of_append(x.drop_first(), y);
    } else {
        lemma_word_len_append(x, y);
        lemma_word_len_bounds(x);
        let n = word_len(x) as int;
        assert((x + y).take(n) =~= x.take(n));
        assert((x + y).skip(n) =~= x.skip(n) + y);
        lemma_words_of_append(x.skip(n), y);
        assert(seq![x.take(n)] + (words_of(x.skip(n)) + words_of(y)) =~= (seq![x.take(n)]
            + words_of(x.skip(n))) + words_of(y));
    }
}

/// The byte sequences held by a vector of byte vectors.
pub open spec fn views(v: Seq<Vec<u8>>) -> Seq<Seq<u8>> {
    v.map_values(|w: Vec<u8>| w@)
}

/// Relies on memchr::memchr3: the index of the first byte equal to one of the
/// three needles (space, newline, tab), or `None` when there is none.
#[verifier::external_body]
fn find_ws(h: &[u8]) -> (r: Option<usize>)
    ensures
        match r {
            Some(i) => i < h@.len() && is_ws(h@[i as int]) && forall|j: int|
                0 <= j < i ==> !is_ws(#[trigger] h@[j]),
            None => forall|j: int| 0 <= j < h@.len() ==> !is_ws(#[trigger] h@[j]),
        },
{
    memchr::memchr3(b' ', b'\n', b'\t', h)
}

/// Splits `s` into its words (space, tab and newline separate them; empty
/// tokens between consecutive separators are skipped).
pub fn split_words(s: &[u8]) -> (r: Vec<Vec<u8>>)
    ensures
        views(r@) == words_of(s@),
{
    let mut out: Vec<Vec<u8>> = Vec::new();
    let mut pos: usize = 0;
    let len = s.len();
    proof {
        assert(s@.skip(0) =~= s@);
        assert(views(out@) + words_of(s@) =~= words_of(s@));
    }
    while pos < len
        invariant
            len == s@.len(),
            pos <= len,
            words_of(s@) == views(out@) + words_of(s@.skip(pos as int)),
        decreases len - pos,
    {
        let rest = slice_subrange(s, pos, len);
        proof {
            assert(rest@ =~= s@.skip(pos as int));
        }
        match find_ws(rest) {
            Some(i) => {
                if i == 0 {
                    assert(s@.skip(pos as int).drop_first() =~= s@.skip(pos + 1));
                    assert(words_of(s@.skip(pos as int)) == words_of(s@.skip(pos + 1)));
                    pos = pos + 1;
                } else {
                    let word = slice_to_vec(slice_subrange(s, pos, pos + i));
                    let ghost t = s@.skip(pos as int);
                    proof {
                        lemma_word_len_is_first_ws(t, i as int);
                        assert(t.take(i as int) =~= word@);
                        assert(t.skip(i as int) =~= s@.skip(pos + i));
                        assert(s@.skip(pos + i).drop_first() =~= s@.skip(pos + i + 1));
                    }
                    let ghost before = out@;
                    out.push(word);
                    proof {
                        assert(views(out@) =~= views(before).push(word@));
                        assert(!is_ws(t[0]) && rest@[0] == t[0]);
                        assert(words_of(t) == seq![word@] + words_of(s@.skip(pos + i)));
                        assert(is_ws(s@.skip(pos + i)[0]) && rest@[i as int] == s@.skip(pos + i)[0]);
                        assert(words_of(s@.skip(pos + i)) == words_of(s@.skip(pos + i + 1)));
                        assert(views(before) + words_of(t) =~= views(out@) + words_of(
                            s@.skip(pos + i + 1),
                        ));
                    }
                    pos = pos + i + 1;
                }
            },
            None => {
                let word = slice_to_vec(rest);
                let ghost t = s@.skip(pos as int);
                proof {
                    lemma_word_len_is_first_ws(t, t.len() as int);
                    assert(t.take(t.len() as int) =~= word@);
                    assert(t.skip(t.len() as int) =~= Seq::<u8>::empty());
                    assert(s@.skip(len as int) =~= Seq::<u8>::empty());
                }
                let ghost before = out@;
                out.push(word);
                proof {
                    assert(views(out@) =~= views(before).push(word@));
                    assert(words_of(t) == seq![word@] + words_of(Seq::<u8>::empty()));
                    assert(views(before) + words_of(t) =~= views(out@) + words_of(
                        s@.skip(len as int),
                    ));
                }
                pos = len;
            },
        }
    }
    proof {
        assert(s@.skip(len as int) =~= Seq::<u8>::empty());
        assert(views(out@) + Seq::<Seq<u8>>::empty() =~= views(out@));
    }
    out
}

/// ASCII lower-casing of one byte; other bytes are unchanged.
pub open spec fn lower_byte(b: u8) -> u8 {
    if 65u8 <= b && b <= 90u8 {
        (b + 32) as u8
    } else {
        b
    }
}

/// ASCII lower-casing of a byte string.
pub open spec fn lower(w: Seq<u8>) -> Seq<u8> {
    w.map_values(|b: u8| lower_byte(b))
}

/// Converts the ASCII upper-case letters of `buf` to lower case in place.
pub fn to_ascii_lowercase(buf: &mut Vec<u8>)
    ensures
        final(buf)@ == lower(old(buf)@),
{
    let n = buf.len();
    let mut i: usize = 0;
    while i < n
        invariant
            n == old(buf)@.len(),
            buf@.len() == n,
            i <= n,
            forall|j: int| 0 <= j < i ==> buf@[j] == lower_byte(#[trigger] old(buf)@[j]),
            forall|j: int| i <= j < n ==> buf@[j] == #[trigger] old(buf)@[j],
        decreases n - i,
    {
        let b = buf[i];
        if 65u8 <= b && b <= 90u8 {
            buf.set(i, b + 32);
        }
        i = i + 1;
    }
    assert(buf@ =~= lower(old(buf)@));
}

/// Index of the first whitespace byte of `s` in `[p, lim)`, or `lim` if none.
pub open spec fn next_ws(s: Seq<u8>, p: int, lim: int) -> int
    decreases lim - p,
{
    if p >= lim {
        lim
    } else if is_ws(s[p]) {
        p
    } else {
        next_ws(s, p + 1, lim)
    }
}

/// Where the nominal boundary `p` of a file's chunks is moved to: forward to
/// the first whitespace byte within the overlap window, so that a word that
/// straddles `p` belongs wholly to the chunk before it.
pub open spec fn cut_point(s: Seq<u8>, p: int, overlap: int) -> int {
    if p <= 0 {
        0
    } else if p >= s.len() {
        s.len() as int
    } else {
        next_ws(s, p, if p + overlap < s.len() { p + overlap } else { s.len() as int })
    }
}

/// The bytes of chunk `k` after both boundaries are resolved.
pub open spec fn chunk_piece(s: Seq<u8>, chunk_size: int, overlap: int, k: int) -> Seq<u8> {
    s.subrange(
        cut_point(s, k * chunk_size, overlap),
        cut_point(s, k * chunk_size + chunk_size, overlap),
    )
}

/// Number of chunks of a file of `len` bytes: `ceil(len / chunk_size)`.
pub open spec fn num_chunks(len: int, chunk_size: int) -> int {
    len / chunk_size + if len % chunk_size == 0 {
        0int
    } else {
        1int
    }
}

/// Length of the longest prefix of `s` that is valid UTF-8.
pub uninterp spec fn utf8_valid_len(s: Seq<u8>) -> nat;

/// Relies on std::str::from_utf8 and Utf8Error::valid_up_to: the length of
/// the longest valid UTF-8 prefix (the whole length when all of it is valid).
#[verifier::external_body]
fn utf8_valid_prefix(b: &[u8]) -> (r: usize)
    ensures
        r == utf8_valid_len(b@),
        r <= b@.len(),
{
    match std::str::from_utf8(b) {
        Ok(_) => b.len(),
        Err(e) => e.valid_up_to(),
    }
}

/// The text of chunk `k`: its resolved bytes up to the first invalid UTF-8
/// sequence; what follows such a sequence is dropped.
pub open spec fn chunk_text(s: Seq<u8>, chunk_size: int, overlap: int, k: int) -> Seq<u8> {
    let piece = chunk_piece(s, chunk_size, overlap, k);
    piece.take(utf8_valid_len(piece) as int)
}

/// The normalized words that chunk `k` of `s` contributes.
pub open spec fn chunk_word_seq(s: Seq<u8>, chunk_size: int, overlap: int, k: int) -> Seq<
    Seq<u8>,
> {
    words_of(chunk_text(s, chunk_size, overlap, k)).map_values(|w: Seq<u8>| lower(w))
}

proof fn lemma_next_ws(s: Seq<u8>, p: int, lim: int)
    requires
        0 <= p <= lim <= s.len(),
    ensures
        next_ws(s, p, lim) == if p + word_len(s.skip(p)) < lim {
            p + word_len(s.skip(p))
        } else {
            lim
        },
    decreases lim - p,
{
    if p < lim && !is_ws(s[p]) {
        lemma_next_ws(s, p + 1, lim);
        assert(s.skip(p).drop_first() =~= s.skip(p + 1));
    }
}

proof fn lemma_word_len_ends_at_ws(t: Seq<u8>)
    ensures
        word_len(t) < t.len() ==> is_ws(t[word_len(t) as int]),
    decreases t.len(),
{
    if t.len() > 0 && !is_ws(t[0]) {
        lemma_word_len_ends_at_ws(t.drop_first());
    }
}

/// A resolved boundary never moves back, and moves at most `overlap` bytes.
proof fn lemma_cut_bounds(s: Seq<u8>, p: int, overlap: int)
    requires
        overlap >= 0,
    ensures
        p <= 0 ==> cut_point(s, p, overlap) == 0,
        p >= 0 ==> p <= cut_point(s, p, overlap) || cut_point(s, p, overlap) == s.len(),
        0 <= cut_point(s, p, overlap) <= s.len(),
        p >= 0 ==> cut_point(s, p, overlap) <= p + overlap,
{
    if 0 < p < s.len() {
        let lim = if p + overlap < s.len() {
            p + overlap
        } else {
            s.len() as int
        };
        lemma_next_ws(s, p, lim);
    }
}

/// The resolved boundary of position `p` (see `cut_point`).
fn resolve_cut(data: &[u8], p: usize, overlap: usize) -> (r: usize)
    ensures
        r == cut_point(data@, p as int, overlap as int),
{
    let len = data.len();
    if p == 0 {
        return 0;
    }
    if p >= len {
        return len;
    }
    let lim = if overlap < len - p {
        p + overlap
    } else {
        len
    };
    let window = slice_subrange(data, p, lim);
    proof {
        lemma_next_ws(data@, p as int, lim as int);
    }
    match find_ws(window) {
        Some(i) => {
            proof {
                lemma_word_len_is_first_ws(data@.skip(p as int), i as int);
            }
            p + i
        },
        None => {
            proof {
                assert forall|j: int| 0 <= j < lim - p implies !is_ws(
                    #[trigger] data@.skip(p as int)[j],
                ) by {
                    assert(window@[j] == data@.skip(p as int)[j]);
                }
                lemma_word_len_at_least(data@.skip(p as int), (lim - p) as int);
            }
            lim
        },
    }
}

/// Number of chunks that a file of `len` bytes is cut into.
pub fn chunk_count(len: usize, chunk_size: usize) -> (r: usize)
    requires
        chunk_size > 0,
    ensures
        r == num_chunks(len as int, chunk_size as int),
{
    let q = len / chunk_size;
    if len % chunk_size == 0 {
        q
    } else {
        proof {
            let r = len % chunk_size;
            vstd::arithmetic::div_mod::lemma_fundamental_div_mod(len as int, chunk_size as int);
            assert(q < usize::MAX) by (nonlinear_arith)
                requires
                    len == chunk_size * q + r,
                    0 < r < chunk_size,
                    len <= usize::MAX,
                    q >= 0,
            ;
        }
        q + 1
    }
}

pub proof fn lemma_chunk_count_facts(len: int, c: int, k: int)
    requires
        c > 0,
        len >= 0,
    ensures
        0 <= k < num_chunks(len, c) ==> k * c < len,
        num_chunks(len, c) * c >= len,
        num_chunks(len, c) >= 0,
{
    let q = len / c;
    let r = len % c;
    assert(len == c * q + r && 0 <= r < c) by {
        vstd::arithmetic::div_mod::lemma_fundamental_div_mod(len, c);
    }
    assert(q >= 0) by (nonlinear_arith)
        requires
            len == c * q + r,
            0 <= r < c,
            len >= 0,
    ;
    if 0 <= k < num_chunks(len, c) {
        if r == 0 {
            assert(k * c < len) by (nonlinear_arith)
                requires
                    k < q,
                    0 <= k,
                    len == c * q + r,
                    c > 0,
                    r == 0,
            ;
        } else {
            assert(k * c < len) by (nonlinear_arith)
                requires
                    k <= q,
                    0 <= k,
                    len == c * q + r,
                    c > 0,
                    r > 0,
            ;
        }
    }
    if r == 0 {
        assert(q * c >= len) by (nonlinear_arith)
            requires
                len == c * q + r,
                r == 0,
        ;
    } else {
        assert((q + 1) * c >= len) by (nonlinear_arith)
            requires
                len == c * q + r,
                r < c,
        ;
    }
}

/// The normalized words of chunk `k` of `data`, with both boundaries
/// resolved so that a word straddling a nominal boundary is read whole by
/// exactly one chunk. The resolved range is read as text up to its longest
/// valid UTF-8 prefix.
pub fn chunk_words(data: &[u8], chunk_size: usize, overlap: usize, k: usize) -> (r: Vec<Vec<u8>>)
    requires
        0 < chunk_size,
        overlap <= chunk_size,
        k * chunk_size < data@.len(),
    ensures
        views(r@) == chunk_word_seq(data@, chunk_size as int, overlap as int, k as int),
{
    let len = data.len();
    let start = k * chunk_size;
    let end = if chunk_size < len - start {
        start + chunk_size
    } else {
        len
    };
    let a = resolve_cut(data, start, overlap);
    let b = resolve_cut(data, end, overlap);
    proof {
        lemma_cut_bounds(data@, start as int, overlap as int);
        lemma_cut_bounds(data@, start + chunk_size, overlap as int);
    }
    let piece = slice_subrange(data, a, b);
    let valid = utf8_valid_prefix(piece);
    let words = split_words(slice_subrange(piece, 0, valid));
    proof {
        assert(piece@.subrange(0, valid as int) =~= chunk_text(
            data@,
            chunk_size as int,
            overlap as int,
            k as int,
        ));
    }
    let ghost expected = chunk_word_seq(data@, chunk_size as int, overlap as int, k as int);
    let mut out: Vec<Vec<u8>> = Vec::new();
    let mut i: usize = 0;
    while i < words.len()
        invariant
            views(words@) == words_of(chunk_text(data@, chunk_size as int, overlap as int, k as int)),
            expected == words_of(chunk_text(data@, chunk_size as int, overlap as int, k as int)).map_values(
                |w: Seq<u8>| lower(w),
            ),
            i <= words@.len(),
            views(out@) == expected.take(i as int),
        decreases words@.len() - i,
    {
        let mut w = words[i].clone();
        to_ascii_lowercase(&mut w);
        let ghost before = out@;
        out.push(w);
        proof {
            assert(words@[i as int]@ == views(words@)[i as int]);
            assert(w@ == expected[i as int]);
            assert(views(out@) =~= views(before).push(w@));
            assert(views(out@) =~= expected.take(i + 1));
        }
        i = i + 1;
    }
    proof {
        assert(expected.take(i as int) =~= expected);
    }
    out
}

/// The normalized words of the first `m` chunks of `s`, in chunk order.
pub open spec fn chunks_upto(s: Seq<u8>, chunk_size: int, overlap: int, m: int) -> Seq<Seq<u8>>
    decreases m,
{
    if m <= 0 {
        Seq::empty()
    } else {
        chunks_upto(s, chunk_size, overlap, m - 1) + chunk_word_seq(s, chunk_size, overlap, m - 1)
    }
}

/// The normalized words of a whole file, read chunk by chunk.
pub open spec fn chunked_words(s: Seq<u8>, chunk_size: int, overlap: int) -> Seq<Seq<u8>> {
    chunks_upto(s, chunk_size, overlap, num_chunks(s.len() as int, chunk_size))
}

/// Every chunk's resolved range of `s` is valid UTF-8 as a whole (true of
/// any valid UTF-8 file, since chunks are cut at whitespace bytes).
pub open spec fn chunks_valid(s: Seq<u8>, chunk_size: int, overlap: int) -> bool {
    forall|k: int|
        0 <= k < num_chunks(s.len() as int, chunk_size) ==> #[trigger] utf8_valid_len(
            chunk_piece(s, chunk_size, overlap, k),
        ) == chunk_piece(s, chunk_size, overlap, k).len()
}

/// No word of `s` is longer than `overlap` bytes.
pub open spec fn words_fit(s: Seq<u8>, overlap: int) -> bool {
    forall|i: int| 0 <= i < s.len() ==> #[trigger] word_len(s.skip(i)) <= overlap
}

/// A resolved boundary inside the file falls on a whitespace byte, when no
/// word is longer than the overlap window.
proof fn lemma_cut_on_ws(s: Seq<u8>, p: int, overlap: int)
    requires
        0 < p < s.len(),
        0 <= overlap,
        words_fit(s, overlap),
        cut_point(s, p, overlap) < s.len(),
    ensures
        is_ws(s[cut_point(s, p, overlap)]),
{
    let lim = if p + overlap < s.len() {
        p + overlap
    } else {
        s.len() as int
    };
    lemma_next_ws(s, p, lim);
    lemma_word_len_bounds(s.skip(p));
    lemma_word_len_ends_at_ws(s.skip(p));
    assert(word_len(s.skip(p)) <= overlap);
}

proof fn lemma_chunks_upto(s: Seq<u8>, chunk_size: int, overlap: int, m: int)
    requires
        0 < chunk_size,
        0 <= overlap <= chunk_size,
        words_fit(s, overlap),
        chunks_valid(s, chunk_size, overlap),
        0 <= m <= num_chunks(s.len() as int, chunk_size),
    ensures
        chunks_upto(s, chunk_size, overlap, m) == words_of(
            s.subrange(0, cut_point(s, m * chunk_size, overlap)),
        ).map_values(|w: Seq<u8>| lower(w)),
    decreases m,
{
    if m == 0 {
        assert(0 * chunk_size == 0);
        assert(s.subrange(0, 0) =~= Seq::<u8>::empty());
        assert(Seq::<Seq<u8>>::empty().map_values(|w: Seq<u8>| lower(w)) =~= Seq::<Seq<u8>>::empty());
    } else {
        let j = m - 1;
        lemma_chunks_upto(s, chunk_size, overlap, j);
        lemma_chunk_count_facts(s.len() as int, chunk_size, j);
        assert(j * chunk_size >= 0) by (nonlinear_arith)
            requires
                j >= 0,
                chunk_size > 0,
        ;
        assert(m * chunk_size == j * chunk_size + chunk_size) by (nonlinear_arith)
            requires
                m == j + 1,
        ;
        let a = cut_point(s, j * chunk_size, overlap);
        let b = cut_point(s, m * chunk_size, overlap);
        lemma_cut_bounds(s, j * chunk_size, overlap);
        lemma_cut_bounds(s, m * chunk_size, overlap);
        assert(a <= b);
        let x = s.subrange(0, a);
        let y = s.subrange(a, b);
        assert(s.subrange(0, b) =~= x + y);
        if j > 0 && a < s.len() && a < b {
            assert(j * chunk_size > 0) by (nonlinear_arith)
                requires
                    j > 0,
                    chunk_size > 0,
            ;
            lemma_cut_on_ws(s, j * chunk_size, overlap);
            assert(y[0] == s[a]);
        }
        if j == 0 {
            assert(x.len() == 0);
        }
        lemma_words_of_append(x, y);
        assert(y == chunk_piece(s, chunk_size, overlap, j));
        assert(utf8_valid_len(chunk_piece(s, chunk_size, overlap, j)) == y.len());
        assert(y.take(y.len() as int) =~= y);
        assert(chunk_text(s, chunk_size, overlap, j) == y);
        assert((words_of(x) + words_of(y)).map_values(|w: Seq<u8>| lower(w)) =~= words_of(
            x,
        ).map_values(|w: Seq<u8>| lower(w)) + words_of(y).map_values(|w: Seq<u8>| lower(w)));
    }
}

/// Boundary safety: when no word is longer than the overlap window and each
/// chunk's text is valid UTF-8, reading a file chunk by chunk yields exactly
/// the words of the whole file, in order (none is split, lost or read twice).
pub proof fn lemma_chunking_preserves_words(s: Seq<u8>, chunk_size: int, overlap: int)
    requires
        0 < chunk_size,
        0 <= overlap <= chunk_size,
        words_fit(s, overlap),
        chunks_valid(s, chunk_size, overlap),
    ensures
        chunked_words(s, chunk_size, overlap) == words_of(s).map_values(|w: Seq<u8>| lower(w)),
{
    let n = num_chunks(s.len() as int, chunk_size);
    lemma_chunk_count_facts(s.len() as int, chunk_size, 0);
    lemma_chunks_upto(s, chunk_size, overlap, n);
    assert(s.subrange(0, s.len() as int) =~= s);
}

} // verus!
