//! Ranking scored documents for the browser reply.
//!
//! The output writer sends the best documents of the latest query, ordered
//! by descending score, ties broken by ascending document id, truncated to
//! a fixed count. Scores reach this module as opaque order keys: a caller
//! maps each evaluated score to a key whose unsigned order agrees with the
//! score order it wants.

use vstd::prelude::*;

use vstd::seq_lib::lemma_multiset_commutative;

verus! {

/// Whether scored pair `a` ranks before `b`: higher key first, ties by
/// ascending document id.
pub open spec fn ranked_before(a: (u64, usize), b: (u64, usize)) -> bool {
    a.0 > b.0 || (a.0 == b.0 && a.1 < b.1)
}

/// Each pair ranks before every later one.
pub open spec fn strictly_ranked(s: Seq<(u64, usize)>) -> bool {
    forall|p: int, q: int| 0 <= p < q < s.len() ==> ranked_before(s[p], s[q])
}

/// The document ids of a sequence of scored pairs, in order.
pub open spec fn doc_ids_of(s: Seq<(u64, usize)>) -> Seq<usize> {
    s.map_values(|p: (u64, usize)| p.1)
}

/// Rankings are unique: two strictly ranked sequences with the same
/// elements are equal, so the witness in `top_k`'s contract pins its
/// result completely.
pub proof fn lemma_ranking_unique(s1: Seq<(u64, usize)>, s2: Seq<(u64, usize)>)
    requires
        s1.to_multiset() == s2.to_multiset(),
        strictly_ranked(s1),
        strictly_ranked(s2),
    ensures
        s1 == s2,
    decreases s1.len(),
{
    broadcast use vstd::seq_lib::group_to_multiset_ensures;

    assert(s1.to_multiset().len() == s1.len());
    assert(s2.to_multiset().len() == s2.len());
    assert(s1.len() == s2.len());
    if s1.len() > 0 {
        assert(s1.contains(s1[0]));
        assert(s1.to_multiset().count(s1[0]) > 0);
        assert(s2.to_multiset().count(s1[0]) > 0);
        assert(s2.contains(s1[0]));
        assert(s2.contains(s2[0]));
        assert(s2.to_multiset().count(s2[0]) > 0);
        assert(s1.to_multiset().count(s2[0]) > 0);
        assert(s1.contains(s2[0]));
        if s1[0] != s2[0] {
            let i = choose|i: int| 0 <= i < s2.len() && s2[i] == s1[0];
            let j = choose|j: int| 0 <= j < s1.len() && s1[j] == s2[0];
            assert(i > 0 && j > 0);
            assert(ranked_before(s2[0], s2[i]));
            assert(ranked_before(s1[0], s1[j]));
            assert(false);
        }
        assert(s1.drop_first() =~= s1.remove(0));
        assert(s2.drop_first() =~= s2.remove(0));
        assert(s1.remove(0).to_multiset() =~= s2.remove(0).to_multiset());
        assert(strictly_ranked(s1.drop_first())) by {
            assert forall|p: int, q: int|
                0 <= p < q < s1.drop_first().len() implies ranked_before(
                s1.drop_first()[p],
                s1.drop_first()[q],
            ) by {
                assert(s1.drop_first()[p] == s1[p + 1]);
                assert(s1.drop_first()[q] == s1[q + 1]);
            }
        }
        assert(strictly_ranked(s2.drop_first())) by {
            assert forall|p: int, q: int|
                0 <= p < q < s2.drop_first().len() implies ranked_before(
                s2.drop_first()[p],
                s2.drop_first()[q],
            ) by {
                assert(s2.drop_first()[p] == s2[p + 1]);
                assert(s2.drop_first()[q] == s2[q + 1]);
            }
        }
        lemma_ranking_unique(s1.drop_first(), s2.drop_first());
        assert forall|k: int| 0 <= k < s1.len() implies s1[k] == s2[k] by {
            if k > 0 {
                assert(s1.drop_first()[k - 1] == s1[k]);
                assert(s2.drop_first()[k - 1] == s2[k]);
            }
        }
        assert(s1 =~= s2);
    } else {
        assert(s1 =~= s2);
    }
}

/// The first `k` document ids of the ranking of `scored`: the pairs sorted
/// by descending key, ties by ascending id, truncated to `k`, ids only.
/// With distinct ids the ranking is a strict total order, so the witness
/// sequence is unique.
pub fn top_k(scored: Vec<(u64, usize)>, k: usize) -> (r: Vec<usize>)
    requires
        forall|p: int, q: int| 0 <= p < q < scored@.len() ==> scored@[p].1 != scored@[q].1,
    ensures
        exists|s: Seq<(u64, usize)>|
            {
                &&& #[trigger] s.to_multiset() == scored@.to_multiset()
                &&& strictly_ranked(s)
                &&& r@ == doc_ids_of(s).take(
                    if k <= s.len() {
                        k as int
                    } else {
                        s.len() as int
                    },
                )
            },
{
    broadcast use vstd::seq_lib::group_to_multiset_ensures;

    let mut out: Vec<(u64, usize)> = Vec::new();
    let mut i: usize = 0;
    proof {
        assert(scored@.take(0) =~= Seq::<(u64, usize)>::empty());
        assert(out@.to_multiset() =~= scored@.take(0).to_multiset());
    }
    while i < scored.len()
        invariant
            i <= scored@.len(),
            forall|p: int, q: int| 0 <= p < q < scored@.len() ==> scored@[p].1 != scored@[q].1,
            out@.to_multiset() == scored@.take(i as int).to_multiset(),
            strictly_ranked(out@),
            forall|p: int, q: int| 0 <= p < q < out@.len() ==> out@[p].1 != out@[q].1,
            forall|p: int| 0 <= p < out@.len() ==> scored@.take(i as int).contains(#[trigger] out@[p]),
        decreases scored@.len() - i,
    {
        broadcast use vstd::seq_lib::group_to_multiset_ensures;

        let x = scored[i];
        let ghost prev = out@;
        proof {
            assert forall|p: int| 0 <= p < prev.len() implies prev[p].1 != x.1 by {
                assert(scored@.take(i as int).contains(prev[p]));
                let u = choose|u: int| 0 <= u < i && scored@.take(i as int)[u] == prev[p];
                assert(scored@[u] == prev[p]);
                assert(scored@[i as int] == x);
            }
        }
        let mut j: usize = 0;
        while j < out.len() && (out[j].0 > x.0 || (out[j].0 == x.0 && out[j].1 < x.1))
            invariant
                j <= out@.len(),
                out@ == prev,
                forall|p: int| 0 <= p < j ==> ranked_before(out@[p], x),
            decreases out@.len() - j,
        {
            j += 1;
        }
        proof {
            if j < prev.len() {
                assert(!ranked_before(prev[j as int], x));
                assert(prev[j as int].1 != x.1);
                assert(ranked_before(x, prev[j as int]));
            }
        }
        out.insert(j, x);
        proof {
            assert(out@ == prev.insert(j as int, x));
            prev.insert_ensures(j as int, x);
            let a = prev.subrange(0, j as int);
            let b = prev.subrange(j as int, prev.len() as int);
            assert(prev =~= a + b);
            assert(out@ =~= a.push(x) + b);
            lemma_multiset_commutative(a, b);
            lemma_multiset_commutative(a.push(x), b);
            assert(out@.to_multiset() =~= prev.to_multiset().insert(x));
            assert(scored@.take(i as int + 1).drop_last() =~= scored@.take(i as int));
            assert(scored@.take(i as int + 1) =~= scored@.take(i as int).push(x));
            assert(scored@.take(i as int + 1).to_multiset() =~= scored@.take(
                i as int,
            ).to_multiset().insert(x));
            assert forall|p: int, q: int| 0 <= p < q < out@.len() implies ranked_before(
                out@[p],
                out@[q],
            ) && out@[p].1 != out@[q].1 by {
                assert(forall|p2: int|
                    0 <= p2 < out@.len() ==> out@[p2] == (if p2 < j {
                        prev[p2]
                    } else if p2 == j {
                        x
                    } else {
                        prev[p2 - 1]
                    }));
                if p == j {
                    assert(q - 1 < prev.len());
                    assert(j < prev.len());
                    assert(ranked_before(x, prev[j as int]));
                    if q - 1 > j {
                        assert(ranked_before(prev[j as int], prev[q - 1]));
                    }
                    assert(ranked_before(x, prev[q - 1]));
                } else if q == j {
                    assert(ranked_before(prev[p], x));
                }
            }
            assert forall|p: int|
                0 <= p < out@.len() implies scored@.take(i as int + 1).contains(
                #[trigger] out@[p],
            ) by {
                if p < j {
                    assert(out@[p] == prev[p]);
                    let u = choose|u: int| 0 <= u < i && scored@.take(i as int)[u] == prev[p];
                    assert(scored@.take(i as int + 1)[u] == out@[p]);
                } else if p == j {
                    assert(scored@.take(i as int + 1)[i as int] == x);
                } else {
                    assert(out@[p] == prev[p - 1]);
                    let u = choose|u: int| 0 <= u < i && scored@.take(i as int)[u] == prev[p - 1];
                    assert(scored@.take(i as int + 1)[u] == out@[p]);
                }
            }
        }
        i += 1;
    }
    proof {
        assert(scored@.take(scored@.len() as int) =~= scored@);
    }
    let m: usize = if k <= out.len() {
        k
    } else {
        out.len()
    };
    let mut r: Vec<usize> = Vec::new();
    let mut idx: usize = 0;
    proof {
        assert(r@ =~= doc_ids_of(out@).take(0));
    }
    while idx < m
        invariant
            idx <= m,
            m <= out@.len(),
            r@ == doc_ids_of(out@).take(idx as int),
        decreases m - idx,
    {
        r.push(out[idx].1);
        proof {
            assert(doc_ids_of(out@).take(idx as int).push(doc_ids_of(out@)[idx as int])
                =~= doc_ids_of(out@).take(idx as int + 1));
        }
        idx += 1;
    }
    proof {
        assert(r@ == doc_ids_of(out@).take(m as int));
    }
    r
}

} // verus!
