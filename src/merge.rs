use vstd::prelude::*;
use crate::order::{bytes_eq, bytes_lt, lex_lt, strictly_sorted, lemma_lex_transitive, lemma_lex_total};
use crate::tokenize::views;

verus! {

broadcast use vstd::seq_lib::group_seq_properties;

/// The union of the word sets of several lists.
pub open spec fn union_of(ls: Seq<Seq<Seq<u8>>>) -> Set<Seq<u8>>
    decreases ls.len(),
{
    if ls.len() == 0 {
        Set::empty()
    } else {
        union_of(ls.drop_last()) + ls.last().to_set()
    }
}

/// The word lists held by a vector of word vectors.
pub open spec fn list_views(v: Seq<Vec<Vec<u8>>>) -> Seq<Seq<Seq<u8>>> {
    v.map_values(|l: Vec<Vec<u8>>| views(l@))
}

/// Merges two strictly ascending word lists into one, keeping a word that
/// both hold only once.
pub fn merge_unique(a: &Vec<Vec<u8>>, b: &Vec<Vec<u8>>) -> (r: Vec<Vec<u8>>)
    requires
        strictly_sorted(views(a@)),
        strictly_sorted(views(b@)),
    ensures
        strictly_sorted(views(r@)),
        views(r@).to_set() == views(a@).to_set() + views(b@).to_set(),
{
    let ghost va = views(a@);
    let ghost vb = views(b@);
    let mut out: Vec<Vec<u8>> = Vec::new();
    let mut i: usize = 0;
    let mut j: usize = 0;
    proof {
        assert(va.take(0) =~= Seq::<Seq<u8>>::empty());
        assert(vb.take(0) =~= Seq::<Seq<u8>>::empty());
        assert(views(out@) =~= Seq::<Seq<u8>>::empty());
        assert(views(out@).to_set() =~= va.take(0).to_set() + vb.take(0).to_set());
    }
    while i < a.len() || j < b.len()
        invariant
            va == views(a@),
            vb == views(b@),
            strictly_sorted(va),
            strictly_sorted(vb),
            i <= va.len(),
            j <= vb.len(),
            strictly_sorted(views(out@)),
            views(out@).to_set() == va.take(i as int).to_set() + vb.take(j as int).to_set(),
            forall|p: int, k: int|
                0 <= p < out@.len() && i <= k < va.len() ==> lex_lt(
                    #[trigger] views(out@)[p],
                    #[trigger] va[k],
                ),
            forall|p: int, k: int|
                0 <= p < out@.len() && j <= k < vb.len() ==> lex_lt(
                    #[trigger] views(out@)[p],
                    #[trigger] vb[k],
                ),
        decreases va.len() - i + vb.len() - j,
    {
        let ghost before = views(out@);
        // 0: take from a, 1: take from b, 2: both hold the same word
        let pick: u8 = if i < a.len() && j < b.len() {
            if bytes_lt(a[i].as_slice(), b[j].as_slice()) {
                0
            } else if bytes_eq(a[i].as_slice(), b[j].as_slice()) {
                2
            } else {
                1
            }
        } else if i < a.len() {
            0
        } else {
            1
        };
        if pick == 1 {
            proof {
                if i < va.len() {
                    assert(va[i as int] != vb[j as int] && !lex_lt(va[i as int], vb[j as int]));
                    lemma_lex_total(va[i as int], vb[j as int]);
                }
            }
            let w = b[j].clone();
            let ghost x = vb[j as int];
            assert(w@ == x);
            out.push(w);
            proof {
                assert(views(out@) =~= before.push(x));
                assert(vb.take(j + 1) =~= vb.take(j as int).push(x));
                before.lemma_push_to_set_commute(x);
                vb.take(j as int).lemma_push_to_set_commute(x);
                assert(views(out@).to_set() =~= va.take(i as int).to_set() + vb.take(j + 1).to_set());
                assert forall|k: int| i <= k < va.len() implies lex_lt(x, #[trigger] va[k]) by {
                    if k > i {
                        lemma_lex_transitive(x, va[i as int], va[k]);
                    }
                }
            }
            j = j + 1;
        } else {
            proof {
                if pick == 2 {
                    assert(va[i as int] == vb[j as int]);
                }
            }
            let w = a[i].clone();
            let ghost x = va[i as int];
            assert(w@ == x);
            out.push(w);
            proof {
                assert(views(out@) =~= before.push(x));
                assert(va.take(i + 1) =~= va.take(i as int).push(x));
                before.lemma_push_to_set_commute(x);
                va.take(i as int).lemma_push_to_set_commute(x);
                if pick == 2 {
                    assert(vb.take(j + 1) =~= vb.take(j as int).push(x));
                    vb.take(j as int).lemma_push_to_set_commute(x);
                    assert(views(out@).to_set() =~= va.take(i + 1).to_set() + vb.take(j + 1).to_set());
                } else {
                    assert(views(out@).to_set() =~= va.take(i + 1).to_set() + vb.take(j as int).to_set());
                    assert forall|k: int| j <= k < vb.len() implies lex_lt(x, #[trigger] vb[k]) by {
                        if k > j {
                            lemma_lex_transitive(x, vb[j as int], vb[k]);
                        }
                    }
                }
            }
            i = i + 1;
            if pick == 2 {
                j = j + 1;
            }
        }
    }
    proof {
        assert(va.take(i as int) =~= va);
        assert(vb.take(j as int) =~= vb);
    }
    out
}

pub proof fn lemma_union_push(ls: Seq<Seq<Seq<u8>>>, l: Seq<Seq<u8>>)
    ensures
        union_of(ls.push(l)) == union_of(ls) + l.to_set(),
{
    assert(ls.push(l).drop_last() =~= ls);
}

/// Merges any number of strictly ascending word lists into one strictly
/// ascending list that holds each of their words once. Lists are merged in
/// pairs, round after round, so each word is compared about log2(k) times.
pub fn merge_all(lists: Vec<Vec<Vec<u8>>>) -> (r: Vec<Vec<u8>>)
    requires
        forall|k: int| 0 <= k < lists@.len() ==> strictly_sorted(#[trigger] views(lists@[k]@)),
    ensures
        strictly_sorted(views(r@)),
        views(r@).to_set() == union_of(list_views(lists@)),
{
    let ghost total = union_of(list_views(lists@));
    let mut cur = lists;
    while cur.len() > 1
        invariant
            forall|k: int| 0 <= k < cur@.len() ==> strictly_sorted(#[trigger] views(cur@[k]@)),
            union_of(list_views(cur@)) == total,
        decreases cur@.len(),
    {
        let ghost orig = cur@.len();
        let mut next: Vec<Vec<Vec<u8>>> = Vec::new();
        proof {
            assert(list_views(next@) =~= Seq::<Seq<Seq<u8>>>::empty());
            assert(union_of(list_views(next@)) + union_of(list_views(cur@)) =~= total);
        }
        while cur.len() > 0
            invariant
                forall|k: int| 0 <= k < cur@.len() ==> strictly_sorted(#[trigger] views(cur@[k]@)),
                forall|k: int| 0 <= k < next@.len() ==> strictly_sorted(#[trigger] views(next@[k]@)),
                union_of(list_views(next@)) + union_of(list_views(cur@)) == total,
                2 * next@.len() == orig - cur@.len() || (cur@.len() == 0 && 2 * next@.len() == orig + 1),
                orig > 1,
            decreases cur@.len(),
        {
            let ghost c0 = cur@;
            let ghost n0 = next@;
            let x = cur.pop().unwrap();
            proof {
                assert(c0.drop_last() =~= cur@);
                assert(list_views(c0).drop_last() =~= list_views(cur@));
                assert(list_views(c0).last() == views(x@));
                assert(views(x@) == views(c0[c0.len() - 1]@));
            }
            if cur.len() > 0 {
                let ghost c1 = cur@;
                let y = cur.pop().unwrap();
                proof {
                    assert(c1.drop_last() =~= cur@);
                    assert(list_views(c1).drop_last() =~= list_views(cur@));
                    assert(list_views(c1).last() == views(y@));
                    assert(views(y@) == views(c1[c1.len() - 1]@));
                }
                let m = merge_unique(&x, &y);
                next.push(m);
                proof {
                    assert(list_views(next@) =~= list_views(n0).push(views(m@)));
                    lemma_union_push(list_views(n0), views(m@));
                    assert(union_of(list_views(c0)) == union_of(list_views(c1)) + views(x@).to_set());
                    assert(union_of(list_views(c1)) == union_of(list_views(cur@)) + views(y@).to_set());
                    assert(union_of(list_views(next@)) + union_of(list_views(cur@)) =~= total);
                }
            } else {
                next.push(x);
                proof {
                    assert(list_views(next@) =~= list_views(n0).push(views(x@)));
                    lemma_union_push(list_views(n0), views(x@));
                    assert(union_of(list_views(next@)) + union_of(list_views(cur@)) =~= total);
                }
            }
        }
        proof {
            assert(list_views(cur@) =~= Seq::<Seq<Seq<u8>>>::empty());
            assert(union_of(list_views(next@)) =~= total);
        }
        cur = next;
    }
    if cur.len() == 0 {
        proof {
            assert(list_views(cur@) =~= Seq::<Seq<Seq<u8>>>::empty());
        }
        let r: Vec<Vec<u8>> = Vec::new();
        proof {
            assert(views(r@).to_set() =~= total);
        }
        r
    } else {
        let ghost c0 = cur@;
        let r = cur.pop().unwrap();
        proof {
            assert(list_views(c0).drop_last() =~= Seq::<Seq<Seq<u8>>>::empty());
            assert(list_views(c0).last() == views(r@));
            assert(views(r@) == views(c0[0]@));
            assert(union_of(list_views(c0)) == union_of(list_views(c0).drop_last()) + views(r@).to_set());
            assert(union_of(Seq::<Seq<Seq<u8>>>::empty()) == Set::<Seq<u8>>::empty());
            assert(union_of(list_views(c0)) =~= views(r@).to_set());
        }
        r
    }
}

/// The distinct words of `words`, in strictly ascending byte order.
pub fn sort_unique(words: Vec<Vec<u8>>) -> (r: Vec<Vec<u8>>)
    ensures
        strictly_sorted(views(r@)),
        views(r@).to_set() == views(words@).to_set(),
{
    let ghost vw = views(words@);
    let mut singles: Vec<Vec<Vec<u8>>> = Vec::new();
    let mut rest = words;
    proof {
        assert(list_views(singles@) =~= Seq::<Seq<Seq<u8>>>::empty());
        assert(union_of(list_views(singles@)) + views(rest@).to_set() =~= vw.to_set());
    }
    while rest.len() > 0
        invariant
            forall|k: int| 0 <= k < singles@.len() ==> strictly_sorted(#[trigger] views(singles@[k]@)),
            union_of(list_views(singles@)) + views(rest@).to_set() == vw.to_set(),
        decreases rest@.len(),
    {
        let ghost r0 = rest@;
        let ghost s0 = singles@;
        let w = rest.pop().unwrap();
        let ghost x = w@;
        let single = vec![w];
        singles.push(single);
        proof {
            assert(views(r0) =~= views(rest@).push(x));
            views(rest@).lemma_push_to_set_commute(x);
            assert(views(single@) =~= seq![x]);
            assert(seq![x].to_set() =~= Set::<Seq<u8>>::empty().insert(x));
            assert(list_views(singles@) =~= list_views(s0).push(seq![x]));
            lemma_union_push(list_views(s0), seq![x]);
            assert(union_of(list_views(singles@)) + views(rest@).to_set() =~= vw.to_set());
        }
    }
    proof {
        assert(views(rest@).to_set() =~= Set::<Seq<u8>>::empty());
        assert(union_of(list_views(singles@)) =~= vw.to_set());
    }
    merge_all(singles)
}

/// A strictly ascending list is fixed by the set of its words: two such
/// lists with the same words are the same list.
pub proof fn lemma_sorted_unique_determined(a: Seq<Seq<u8>>, b: Seq<Seq<u8>>)
    requires
        strictly_sorted(a),
        strictly_sorted(b),
        a.to_set() == b.to_set(),
    ensures
        a == b,
    decreases a.len(),
{
    if a.len() == 0 {
        if b.len() > 0 {
            assert(a.to_set().contains(b[0]));
        }
        assert(a =~= b);
    } else {
        assert(b.to_set().contains(a[0]));
        let j = choose|j: int| 0 <= j < b.len() && b[j] == a[0];
        assert(a.to_set().contains(b[0]));
        let i = choose|i: int| 0 <= i < a.len() && a[i] == b[0];
        if j > 0 {
            assert(lex_lt(b[0], b[j]));
            if i > 0 {
                assert(lex_lt(a[0], a[i]));
                crate::order::lemma_lex_asymmetric(a[0], a[i]);
            } else {
                crate::order::lemma_lex_irreflexive(a[0]);
            }
        }
        assert(a[0] == b[0]);
        let x = a[0];
        let a1 = a.drop_first();
        let b1 = b.drop_first();
        assert forall|y: Seq<u8>| a1.to_set().contains(y) <==> b1.to_set().contains(y) by {
            if a1.to_set().contains(y) {
                let k = choose|k: int| 0 <= k < a1.len() && a1[k] == y;
                assert(lex_lt(a[0], a[k + 1]));
                crate::order::lemma_lex_irreflexive(x);
                assert(a.to_set().contains(y));
                let m = choose|m: int| 0 <= m < b.len() && b[m] == y;
                assert(m != 0);
                assert(b1[m - 1] == y);
            }
            if b1.to_set().contains(y) {
                let k = choose|k: int| 0 <= k < b1.len() && b1[k] == y;
                assert(lex_lt(b[0], b[k + 1]));
                crate::order::lemma_lex_irreflexive(x);
                assert(b.to_set().contains(y));
                let m = choose|m: int| 0 <= m < a.len() && a[m] == y;
                assert(m != 0);
                assert(a1[m - 1] == y);
            }
        }
        assert(a1.to_set() =~= b1.to_set());
        assert(strictly_sorted(a1)) by {
            assert forall|p: int, q: int| 0 <= p < q < a1.len() implies lex_lt(#[trigger] a1[p], #[trigger] a1[q]) by {
                assert(lex_lt(a[p + 1], a[q + 1]));
            }
        }
        assert(strictly_sorted(b1)) by {
            assert forall|p: int, q: int| 0 <= p < q < b1.len() implies lex_lt(#[trigger] b1[p], #[trigger] b1[q]) by {
                assert(lex_lt(b[p + 1], b[q + 1]));
            }
        }
        lemma_sorted_unique_determined(a1, b1);
        assert(a =~= seq![x] + a1);
        assert(b =~= seq![x] + b1);
    }
}

} // verus!
