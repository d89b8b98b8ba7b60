use vstd::prelude::*;
use crate::merge::{lemma_sorted_unique_determined, list_views, merge_all, sort_unique, union_of};
use crate::order::{bytes_lt, lex_lt, strictly_sorted, lemma_lex_transitive};
use crate::records::{decode_from, decode_records};
use crate::partition::hash_partition;
use crate::tokenize::{
    chunk_count, chunk_word_seq, chunk_words, chunked_words, chunks_upto, lemma_chunk_count_facts,
    chunks_valid, lemma_chunking_preserves_words, lower, num_chunks, split_words, views, words_fit,
    words_of,
};
use crate::PARTITIONS;

verus! {

/// The distinct normalized words of all `files`, each read chunk by chunk.
pub open spec fn all_words(files: Seq<Seq<u8>>, chunk_size: int, overlap: int) -> Set<Seq<u8>> {
    union_of(files.map_values(|f: Seq<u8>| chunked_words(f, chunk_size, overlap)))
}

proof fn lemma_union_update_push(ls: Seq<Seq<Seq<u8>>>, i: int, x: Seq<u8>)
    requires
        0 <= i < ls.len(),
    ensures
        union_of(ls.update(i, ls[i].push(x))) == union_of(ls).insert(x),
    decreases ls.len(),
{
    let u = ls.update(i, ls[i].push(x));
    ls[i].lemma_push_to_set_commute(x);
    if i == ls.len() - 1 {
        assert(u.drop_last() =~= ls.drop_last());
        assert(union_of(u) =~= union_of(ls).insert(x));
    } else {
        lemma_union_update_push(ls.drop_last(), i, x);
        assert(u.drop_last() =~= ls.drop_last().update(i, ls[i].push(x)));
        assert(union_of(u) =~= union_of(ls).insert(x));
    }
}

/// The whole sort-and-deduplicate pass held in memory: every file is read
/// chunk by chunk, each normalized word is routed to its hash partition, each
/// partition is sorted and deduplicated on its own, and the partitions are
/// merged. The result is strictly ascending and holds exactly the distinct
/// normalized words of the input.
pub fn sort_unique_words(files: &Vec<Vec<u8>>, chunk_size: usize, overlap: usize) -> (r: Vec<
    Vec<u8>,
>)
    requires
        0 < chunk_size,
        overlap <= chunk_size,
    ensures
        strictly_sorted(views(r@)),
        views(r@).to_set() == all_words(views(files@), chunk_size as int, overlap as int),
{
    let ghost c = chunk_size as int;
    let ghost ov = overlap as int;
    let ghost fs = views(files@);
    let mut buckets: Vec<Vec<Vec<u8>>> = Vec::new();
    while buckets.len() < PARTITIONS
        invariant
            buckets@.len() <= PARTITIONS,
            union_of(list_views(buckets@)) == Set::<Seq<u8>>::empty(),
        decreases PARTITIONS - buckets@.len(),
    {
        let ghost b0 = buckets@;
        buckets.push(Vec::new());
        proof {
            assert(list_views(buckets@).drop_last() =~= list_views(b0));
            assert(list_views(buckets@).last() =~= Seq::<Seq<u8>>::empty());
            assert(union_of(list_views(buckets@)) =~= Set::<Seq<u8>>::empty());
        }
    }
    let mut fi: usize = 0;
    proof {
        assert(fs.take(0).map_values(|f: Seq<u8>| chunked_words(f, c, ov)) =~= Seq::<
            Seq<Seq<u8>>,
        >::empty());
    }
    while fi < files.len()
        invariant
            fs == views(files@),
            c == chunk_size,
            ov == overlap,
            0 < chunk_size,
            overlap <= chunk_size,
            fi <= files@.len(),
            buckets@.len() == PARTITIONS,
            union_of(list_views(buckets@)) == all_words(fs.take(fi as int), c, ov),
        decreases files@.len() - fi,
    {
        let f = &files[fi];
        assert(fs[fi as int] == f@);
        let n = chunk_count(f.len(), chunk_size);
        let ghost base = all_words(fs.take(fi as int), c, ov);
        let mut k: usize = 0;
        proof {
            assert(chunks_upto(f@, c, ov, 0).to_set() =~= Set::<Seq<u8>>::empty());
            assert(base + chunks_upto(f@, c, ov, 0).to_set() =~= base);
        }
        while k < n
            invariant
                fs == views(files@),
                c == chunk_size,
                ov == overlap,
                0 < chunk_size,
                overlap <= chunk_size,
                fi < files@.len(),
                f@ == fs[fi as int],
                n == num_chunks(f@.len() as int, c),
                k <= n,
                buckets@.len() == PARTITIONS,
                base == all_words(fs.take(fi as int), c, ov),
                union_of(list_views(buckets@)) == base + chunks_upto(f@, c, ov, k as int).to_set(),
            decreases n - k,
        {
            proof {
                lemma_chunk_count_facts(f@.len() as int, c, k as int);
            }
            let ws = chunk_words(f.as_slice(), chunk_size, overlap, k);
            let ghost before = chunks_upto(f@, c, ov, k as int).to_set();
            let mut j: usize = 0;
            proof {
                assert(views(ws@).take(0).to_set() =~= Set::<Seq<u8>>::empty());
                assert(base + before + views(ws@).take(0).to_set() =~= base + before);
            }
            while j < ws.len()
                invariant
                    buckets@.len() == PARTITIONS,
                    j <= ws@.len(),
                    union_of(list_views(buckets@)) == base + before + views(ws@).take(
                        j as int,
                    ).to_set(),
                decreases ws@.len() - j,
            {
                let w = ws[j].clone();
                let p = hash_partition(w.as_slice());
                let ghost b0 = buckets@;
                let ghost x = w@;
                assert(views(ws@)[j as int] == x);
                buckets[p].push(w);
                proof {
                    assert(buckets@.len() == b0.len());
                    assert(views(buckets@[p as int]@) =~= views(b0[p as int]@).push(x));
                    assert forall|q: int| 0 <= q < b0.len() && q != p implies buckets@[q] == b0[q] by {}
                    assert(list_views(buckets@) =~= list_views(b0).update(
                        p as int,
                        list_views(b0)[p as int].push(x),
                    ));
                    lemma_union_update_push(list_views(b0), p as int, x);
                    assert(views(ws@).take(j + 1) =~= views(ws@).take(j as int).push(x));
                    views(ws@).take(j as int).lemma_push_to_set_commute(x);
                    assert(union_of(list_views(buckets@)) =~= base + before + views(ws@).take(
                        j + 1,
                    ).to_set());
                }
                j = j + 1;
            }
            proof {
                assert(views(ws@).take(j as int) =~= views(ws@));
                assert(chunks_upto(f@, c, ov, k + 1) == chunks_upto(f@, c, ov, k as int)
                    + chunk_word_seq(f@, c, ov, k as int));
                vstd::seq_lib::seq_to_set_distributes_over_add(
                    chunks_upto(f@, c, ov, k as int),
                    chunk_word_seq(f@, c, ov, k as int),
                );
                assert(union_of(list_views(buckets@)) =~= base + chunks_upto(
                    f@,
                    c,
                    ov,
                    k + 1,
                ).to_set());
            }
            k = k + 1;
        }
        proof {
            let g = |s: Seq<u8>| chunked_words(s, c, ov);
            assert(fs.take(fi + 1).map_values(g) =~= fs.take(fi as int).map_values(g).push(
                chunked_words(f@, c, ov),
            ));
            crate::merge::lemma_union_push(
                fs.take(fi as int).map_values(g),
                chunked_words(f@, c, ov),
            );
            assert(union_of(list_views(buckets@)) =~= all_words(fs.take(fi + 1), c, ov));
        }
        fi = fi + 1;
    }
    proof {
        assert(fs.take(fi as int) =~= fs);
    }
    let ghost total = all_words(fs, c, ov);
    let mut sorted: Vec<Vec<Vec<u8>>> = Vec::new();
    proof {
        assert(list_views(sorted@) =~= Seq::<Seq<Seq<u8>>>::empty());
        assert(union_of(list_views(sorted@)) + union_of(list_views(buckets@)) =~= total);
    }
    while buckets.len() > 0
        invariant
            forall|q: int| 0 <= q < sorted@.len() ==> strictly_sorted(#[trigger] views(sorted@[q]@)),
            union_of(list_views(sorted@)) + union_of(list_views(buckets@)) == total,
        decreases buckets@.len(),
    {
        let ghost b0 = buckets@;
        let ghost s0 = sorted@;
        let b = buckets.pop().unwrap();
        proof {
            assert(list_views(b0).drop_last() =~= list_views(buckets@));
            assert(list_views(b0).last() == views(b@));
        }
        let s = sort_unique(b);
        sorted.push(s);
        proof {
            assert(list_views(sorted@) =~= list_views(s0).push(views(s@)));
            crate::merge::lemma_union_push(list_views(s0), views(s@));
            assert(union_of(list_views(sorted@)) + union_of(list_views(buckets@)) =~= total);
        }
    }
    proof {
        assert(list_views(buckets@) =~= Seq::<Seq<Seq<u8>>>::empty());
        assert(union_of(list_views(sorted@)) =~= total);
    }
    merge_all(sorted)
}

/// The output text: each word followed by a newline.
pub open spec fn render(ws: Seq<Seq<u8>>) -> Seq<u8>
    decreases ws.len(),
{
    if ws.len() == 0 {
        Seq::empty()
    } else {
        render(ws.drop_last()) + ws.last() + seq![10u8]
    }
}

/// Writes `words` as text, one per line, each line ending in a newline.
pub fn render_lines(words: &Vec<Vec<u8>>) -> (r: Vec<u8>)
    ensures
        r@ == render(views(words@)),
{
    let mut out: Vec<u8> = Vec::new();
    let mut i: usize = 0;
    proof {
        assert(views(words@).take(0) =~= Seq::<Seq<u8>>::empty());
    }
    while i < words.len()
        invariant
            i <= words@.len(),
            out@ == render(views(words@).take(i as int)),
        decreases words@.len() - i,
    {
        let w = &words[i];
        let ghost o0 = out@;
        let mut j: usize = 0;
        while j < w.len()
            invariant
                j <= w@.len(),
                out@ == o0 + w@.take(j as int),
            decreases w@.len() - j,
        {
            out.push(w[j]);
            proof {
                assert(out@ =~= o0 + w@.take(j + 1));
            }
            j = j + 1;
        }
        out.push(10u8);
        proof {
            let t = views(words@).take(i + 1);
            assert(t.drop_last() =~= views(words@).take(i as int));
            assert(t.last() == w@);
            assert(out@ =~= render(t));
        }
        i = i + 1;
    }
    proof {
        assert(views(words@).take(i as int) =~= views(words@));
    }
    out
}

/// Runs are reproducible: any two results that meet the contract of
/// `sort_unique_words` on the same input are equal, so the output text is
/// byte for byte the same.
pub proof fn lemma_output_determined(
    r1: Seq<Seq<u8>>,
    r2: Seq<Seq<u8>>,
    files: Seq<Seq<u8>>,
    chunk_size: int,
    overlap: int,
)
    requires
        strictly_sorted(r1),
        strictly_sorted(r2),
        r1.to_set() == all_words(files, chunk_size, overlap),
        r2.to_set() == all_words(files, chunk_size, overlap),
    ensures
        r1 == r2,
        render(r1) == render(r2),
{
    lemma_sorted_unique_determined(r1, r2);
}

/// Reduces one partition's spill text (words separated by whitespace, in
/// any order, with repeats) to its distinct words in ascending order.
pub fn reduce_partition(spill: &[u8]) -> (r: Vec<Vec<u8>>)
    ensures
        strictly_sorted(views(r@)),
        views(r@).to_set() == words_of(spill@).to_set(),
{
    let words = split_words(spill);
    sort_unique(words)
}

/// Whether every word of `ws` comes strictly before the next one.
pub fn is_strictly_sorted(ws: &Vec<Vec<u8>>) -> (r: bool)
    ensures
        r == strictly_sorted(views(ws@)),
{
    let ghost v = views(ws@);
    if ws.len() < 2 {
        return true;
    }
    let mut i: usize = 1;
    while i < ws.len()
        invariant
            v == views(ws@),
            1 <= i <= v.len(),
            strictly_sorted(v.take(i as int)),
        decreases v.len() - i,
    {
        if !bytes_lt(ws[i - 1].as_slice(), ws[i].as_slice()) {
            assert(!lex_lt(v[i - 1], v[i as int]));
            return false;
        }
        proof {
            let t = v.take(i + 1);
            assert forall|p: int, q: int| 0 <= p < q < t.len() implies lex_lt(#[trigger] t[p], #[trigger] t[q]) by {
                if q == i {
                    if p < i - 1 {
                        assert(v.take(i as int)[p] == v[p]);
                        assert(v.take(i as int)[i - 1] == v[i - 1]);
                        lemma_lex_transitive(v[p], v[i - 1], v[i as int]);
                    }
                } else {
                    assert(v.take(i as int)[p] == t[p]);
                    assert(v.take(i as int)[q] == t[q]);
                }
            }
        }
        i = i + 1;
    }
    assert(v.take(i as int) =~= v);
    true
}

/// The merge phase on binary partition files: decodes each, and merges them
/// into one strictly ascending list of their distinct words. Returns `None`
/// when some file's records are not strictly ascending.
pub fn merge_encoded(bins: &Vec<Vec<u8>>) -> (r: Option<Vec<Vec<u8>>>)
    ensures
        r is Some <==> forall|k: int|
            0 <= k < bins@.len() ==> strictly_sorted(#[trigger] decode_from(bins@[k]@, 0)),
        r matches Some(m) ==> strictly_sorted(views(m@)) && views(m@).to_set() == union_of(
            views(bins@).map_values(|b: Seq<u8>| decode_from(b, 0)),
        ),
{
    let ghost g = |b: Seq<u8>| decode_from(b, 0);
    let mut lists: Vec<Vec<Vec<u8>>> = Vec::new();
    let mut k: usize = 0;
    while k < bins.len()
        invariant
            k <= bins@.len(),
            lists@.len() == k,
            forall|q: int| 0 <= q < k ==> views(#[trigger] lists@[q]@) == decode_from(bins@[q]@, 0),
            forall|q: int| 0 <= q < k ==> strictly_sorted(#[trigger] decode_from(bins@[q]@, 0)),
        decreases bins@.len() - k,
    {
        let d = decode_records(bins[k].as_slice());
        if !is_strictly_sorted(&d) {
            return None;
        }
        lists.push(d);
        k = k + 1;
    }
    proof {
        assert(list_views(lists@) =~= views(bins@).map_values(g));
        assert forall|q: int| 0 <= q < lists@.len() implies strictly_sorted(#[trigger] views(lists@[q]@)) by {
            assert(views(lists@[q]@) == decode_from(bins@[q]@, 0));
        }
    }
    Some(merge_all(lists))
}

/// The distinct normalized words of all `files`, each read as a whole.
pub open spec fn whole_file_words(files: Seq<Seq<u8>>) -> Set<Seq<u8>> {
    union_of(files.map_values(|f: Seq<u8>| words_of(f).map_values(|w: Seq<u8>| lower(w))))
}

/// The words that the pipeline collects are the distinct normalized words of
/// the input files themselves, whatever the chunk size, provided no word is
/// longer than the overlap window and each chunk's text is valid UTF-8.
pub proof fn lemma_all_words_are_file_words(files: Seq<Seq<u8>>, chunk_size: int, overlap: int)
    requires
        0 < chunk_size,
        0 <= overlap <= chunk_size,
        forall|i: int|
            0 <= i < files.len() ==> words_fit(#[trigger] files[i], overlap) && chunks_valid(
                files[i],
                chunk_size,
                overlap,
            ),
    ensures
        all_words(files, chunk_size, overlap) == whole_file_words(files),
    decreases files.len(),
{
    let g = |f: Seq<u8>| chunked_words(f, chunk_size, overlap);
    let h = |f: Seq<u8>| words_of(f).map_values(|w: Seq<u8>| lower(w));
    if files.len() > 0 {
        let init = files.drop_last();
        assert forall|i: int| 0 <= i < init.len() implies words_fit(#[trigger] init[i], overlap)
            && chunks_valid(init[i], chunk_size, overlap) by {
            assert(init[i] == files[i]);
        }
        lemma_all_words_are_file_words(init, chunk_size, overlap);
        lemma_chunking_preserves_words(files.last(), chunk_size, overlap);
        assert(files.map_values(g).drop_last() =~= init.map_values(g));
        assert(files.map_values(h).drop_last() =~= init.map_values(h));
    } else {
        assert(files.map_values(g) =~= Seq::<Seq<Seq<u8>>>::empty());
        assert(files.map_values(h) =~= Seq::<Seq<Seq<u8>>>::empty());
    }
}

} // verus!
