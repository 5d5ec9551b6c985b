//! Tokenization of document content and of queries, on raw bytes.
//!
//! Document content is split into maximal runs of ASCII letters, lowercased;
//! every other byte is a separator and empty runs are discarded. Queries are
//! split on ASCII whitespace only, without lowercasing: the asymmetry between
//! the two tokenizers is intentional and must be preserved.

use vstd::prelude::*;

verus! {

/// Bytes of ASCII letters; document tokens are maximal runs of these.
pub open spec fn is_alpha_byte(b: u8) -> bool {
    (65 <= b && b <= 90) || (97 <= b && b <= 122)
}

/// ASCII lowercasing of a single byte.
pub open spec fn lower_byte(b: u8) -> u8 {
    if 65 <= b && b <= 90 {
        (b + 32) as u8
    } else {
        b
    }
}

/// ASCII whitespace; query tokens are maximal runs of other bytes.
pub open spec fn is_space_byte(b: u8) -> bool {
    b == 32 || (9 <= b && b <= 13)
}

/// The views of a sequence of byte vectors.
pub open spec fn views(s: Seq<Vec<u8>>) -> Seq<Seq<u8>> {
    s.map_values(|v: Vec<u8>| v@)
}

/// Document tokens of `s`, with `cur` the (lowercased) run read so far.
pub open spec fn doc_tokens_acc(s: Seq<u8>, cur: Seq<u8>) -> Seq<Seq<u8>>
    decreases s.len(),
{
    if s.len() == 0 {
        if cur.len() == 0 {
            Seq::empty()
        } else {
            seq![cur]
        }
    } else if is_alpha_byte(s[0]) {
        doc_tokens_acc(s.drop_first(), cur.push(lower_byte(s[0])))
    } else if cur.len() == 0 {
        doc_tokens_acc(s.drop_first(), cur)
    } else {
        seq![cur] + doc_tokens_acc(s.drop_first(), Seq::empty())
    }
}

/// The maximal lowercased ASCII-letter runs of `s`, in order.
pub open spec fn doc_tokens(s: Seq<u8>) -> Seq<Seq<u8>> {
    doc_tokens_acc(s, Seq::empty())
}

/// Query tokens of `s`, with `cur` the run read so far.
pub open spec fn query_tokens_acc(s: Seq<u8>, cur: Seq<u8>) -> Seq<Seq<u8>>
    decreases s.len(),
{
    if s.len() == 0 {
        if cur.len() == 0 {
            Seq::empty()
        } else {
            seq![cur]
        }
    } else if !is_space_byte(s[0]) {
        query_tokens_acc(s.drop_first(), cur.push(s[0]))
    } else if cur.len() == 0 {
        query_tokens_acc(s.drop_first(), cur)
    } else {
        seq![cur] + query_tokens_acc(s.drop_first(), Seq::empty())
    }
}

/// The maximal non-whitespace runs of `s`, in order.
pub open spec fn query_tokens(s: Seq<u8>) -> Seq<Seq<u8>> {
    query_tokens_acc(s, Seq::empty())
}

/// `s` with later duplicates dropped: the first occurrences, in order.
pub open spec fn dedup_first(s: Seq<Seq<u8>>) -> Seq<Seq<u8>>
    decreases s.len(),
{
    if s.len() == 0 {
        Seq::empty()
    } else {
        let d = dedup_first(s.drop_last());
        if d.contains(s.last()) {
            d
        } else {
            d.push(s.last())
        }
    }
}

/// How many elements of `s` equal `w`.
pub open spec fn count_occ(s: Seq<Seq<u8>>, w: Seq<u8>) -> nat
    decreases s.len(),
{
    if s.len() == 0 {
        0
    } else {
        count_occ(s.drop_last(), w) + (if s.last() == w {
            1nat
        } else {
            0nat
        })
    }
}

/// The occurrence counts of the elements of `s`, as a map.
pub open spec fn counts_of(s: Seq<Seq<u8>>) -> Map<Seq<u8>, nat>
    decreases s.len(),
{
    if s.len() == 0 {
        Map::empty()
    } else {
        let m = counts_of(s.drop_last());
        let w = s.last();
        m.insert(
            w,
            (if m.contains_key(w) {
                m[w]
            } else {
                0nat
            }) + 1,
        )
    }
}

/// Membership in a sequence splits into the prefix and the last element.
pub proof fn lemma_contains_drop_last(s: Seq<Seq<u8>>, w: Seq<u8>)
    requires
        s.len() > 0,
    ensures
        s.contains(w) <==> (s.drop_last().contains(w) || s.last() == w),
{
    if s.contains(w) {
        let i = choose|i: int| 0 <= i < s.len() && s[i] == w;
        if i < s.len() - 1 {
            assert(s.drop_last()[i] == w);
        }
    }
    if s.drop_last().contains(w) {
        let i = choose|i: int| 0 <= i < s.drop_last().len() && s.drop_last()[i] == w;
        assert(s[i] == w);
    }
    if s.last() == w {
        assert(s[s.len() - 1] == w);
    }
}

/// `dedup_first` keeps exactly the elements of `s`, each once.
pub proof fn lemma_dedup_first_props(s: Seq<Seq<u8>>)
    ensures
        dedup_first(s).no_duplicates(),
        forall|w: Seq<u8>| dedup_first(s).contains(w) <==> s.contains(w),
    decreases s.len(),
{
    if s.len() > 0 {
        lemma_dedup_first_props(s.drop_last());
        let d = dedup_first(s.drop_last());
        assert forall|w: Seq<u8>| dedup_first(s).contains(w) <==> s.contains(w) by {
            lemma_contains_drop_last(s, w);
            if !d.contains(s.last()) {
                assert(dedup_first(s) == d.push(s.last()));
                lemma_contains_push(d, s.last(), w);
            }
        }
        if !d.contains(s.last()) {
            assert(d.push(s.last()).no_duplicates());
        }
    }
}

/// Membership in a pushed sequence.
pub proof fn lemma_contains_push(s: Seq<Seq<u8>>, x: Seq<u8>, w: Seq<u8>)
    ensures
        s.push(x).contains(w) <==> (s.contains(w) || w == x),
{
    if s.contains(w) {
        let i = choose|i: int| 0 <= i < s.len() && s[i] == w;
        assert(s.push(x)[i] == w);
    }
    assert(s.push(x)[s.len() as int] == x);
    if s.push(x).contains(w) {
        let i = choose|i: int| 0 <= i < s.push(x).len() && s.push(x)[i] == w;
        if i < s.len() {
            assert(s[i] == w);
        }
    }
}

/// `counts_of` records each element of `s` with its occurrence count.
pub proof fn lemma_counts_of(s: Seq<Seq<u8>>, w: Seq<u8>)
    ensures
        counts_of(s).contains_key(w) <==> s.contains(w),
        s.contains(w) ==> counts_of(s)[w] == count_occ(s, w),
        s.contains(w) ==> count_occ(s, w) >= 1,
        !s.contains(w) ==> count_occ(s, w) == 0,
    decreases s.len(),
{
    if s.len() > 0 {
        lemma_counts_of(s.drop_last(), w);
        lemma_contains_drop_last(s, w);
    }
}

/// Byte-vector equality, by contents.
pub fn bytes_eq(a: &Vec<u8>, b: &Vec<u8>) -> (r: bool)
    ensures
        r == (a@ == b@),
{
    if a.len() != b.len() {
        return false;
    }
    let mut i: usize = 0;
    while i < a.len()
        invariant
            i <= a@.len(),
            a@.len() == b@.len(),
            forall|j: int| 0 <= j < i ==> a@[j] == b@[j],
        decreases a@.len() - i,
    {
        if a[i] != b[i] {
            return false;
        }
        i += 1;
    }
    proof {
        assert(a@ =~= b@);
    }
    true
}

/// A copy of a byte vector.
pub fn clone_bytes(v: &Vec<u8>) -> (r: Vec<u8>)
    ensures
        r@ == v@,
{
    let mut r: Vec<u8> = Vec::new();
    let mut i: usize = 0;
    while i < v.len()
        invariant
            i <= v@.len(),
            r@ == v@.take(i as int),
        decreases v@.len() - i,
    {
        r.push(v[i]);
        proof {
            assert(v@.take(i as int).push(v@[i as int]) =~= v@.take(i as int + 1));
        }
        i += 1;
    }
    proof {
        assert(v@.take(v@.len() as int) =~= v@);
    }
    r
}

/// Whether `w` occurs among `ws`, by contents.
pub fn contains_word(ws: &Vec<Vec<u8>>, w: &Vec<u8>) -> (r: bool)
    ensures
        r == views(ws@).contains(w@),
{
    let mut i: usize = 0;
    while i < ws.len()
        invariant
            i <= ws@.len(),
            forall|j: int| 0 <= j < i ==> views(ws@)[j] != w@,
        decreases ws@.len() - i,
    {
        if bytes_eq(&ws[i], w) {
            proof {
                assert(views(ws@)[i as int] == w@);
            }
            return true;
        }
        i += 1;
    }
    false
}

/// How many elements of `ws` equal `w`.
pub fn count_occurrences(ws: &Vec<Vec<u8>>, w: &Vec<u8>) -> (r: usize)
    ensures
        r == count_occ(views(ws@), w@),
{
    let mut i: usize = 0;
    let mut r: usize = 0;
    while i < ws.len()
        invariant
            i <= ws@.len(),
            r <= i,
            r == count_occ(views(ws@).take(i as int), w@),
        decreases ws@.len() - i,
    {
        proof {
            assert(views(ws@).take(i as int + 1).drop_last() =~= views(ws@).take(i as int));
            assert(views(ws@).take(i as int + 1).last() == views(ws@)[i as int]);
        }
        if bytes_eq(&ws[i], w) {
            r += 1;
        }
        i += 1;
    }
    proof {
        assert(views(ws@).take(ws@.len() as int) =~= views(ws@));
    }
    r
}

/// The first occurrences of `words`, in order, without later duplicates.
pub fn dedup_words(words: &Vec<Vec<u8>>) -> (r: Vec<Vec<u8>>)
    ensures
        views(r@) == dedup_first(views(words@)),
{
    let mut r: Vec<Vec<u8>> = Vec::new();
    let mut i: usize = 0;
    while i < words.len()
        invariant
            i <= words@.len(),
            views(r@) == dedup_first(views(words@).take(i as int)),
        decreases words@.len() - i,
    {
        proof {
            assert(views(words@).take(i as int + 1).drop_last() =~= views(words@).take(i as int));
            assert(views(words@).take(i as int + 1).last() == views(words@)[i as int]);
        }
        if !contains_word(&r, &words[i]) {
            let ghost prev = r@;
            r.push(clone_bytes(&words[i]));
            proof {
                assert(views(r@) =~= views(prev).push(words@[i as int]@));
            }
        }
        i += 1;
    }
    proof {
        assert(views(words@).take(words@.len() as int) =~= views(words@));
    }
    r
}

/// The document tokens of `content`: maximal ASCII-letter runs, lowercased.
pub fn tokenize_document(content: &Vec<u8>) -> (r: Vec<Vec<u8>>)
    ensures
        views(r@) == doc_tokens(content@),
{
    let mut out: Vec<Vec<u8>> = Vec::new();
    let mut cur: Vec<u8> = Vec::new();
    let mut i: usize = 0;
    proof {
        assert(content@.skip(0) =~= content@);
        assert(views(out@) + doc_tokens_acc(content@, cur@) =~= doc_tokens_acc(content@, cur@));
    }
    while i < content.len()
        invariant
            i <= content@.len(),
            doc_tokens(content@) == views(out@) + doc_tokens_acc(content@.skip(i as int), cur@),
        decreases content@.len() - i,
    {
        let b = content[i];
        proof {
            assert(content@.skip(i as int).drop_first() =~= content@.skip(i as int + 1));
            assert(content@.skip(i as int)[0] == content@[i as int]);
        }
        if 65 <= b && b <= 90 {
            cur.push(b + 32);
        } else if 97 <= b && b <= 122 {
            cur.push(b);
        } else {
            if cur.len() > 0 {
                let ghost prev_out = out@;
                let ghost prev_cur = cur@;
                out.push(cur);
                cur = Vec::new();
                proof {
                    assert(views(out@) =~= views(prev_out).push(prev_cur));
                    assert(views(prev_out) + (seq![prev_cur] + doc_tokens_acc(
                        content@.skip(i as int + 1),
                        Seq::empty(),
                    )) =~= views(out@) + doc_tokens_acc(content@.skip(i as int + 1), cur@));
                }
            }
        }
        i += 1;
    }
    proof {
        assert(content@.skip(content@.len() as int) =~= Seq::<u8>::empty());
    }
    if cur.len() > 0 {
        let ghost prev_out = out@;
        let ghost prev_cur = cur@;
        out.push(cur);
        proof {
            assert(views(out@) =~= views(prev_out).push(prev_cur));
            assert(views(prev_out) + seq![prev_cur] =~= views(out@));
        }
        out
    } else {
        proof {
            assert(views(out@) + Seq::<Seq<u8>>::empty() =~= views(out@));
        }
        out
    }
}

/// The query tokens of `q`: maximal non-whitespace runs, unaltered.
pub fn tokenize_query(q: &Vec<u8>) -> (r: Vec<Vec<u8>>)
    ensures
        views(r@) == query_tokens(q@),
{
    let mut out: Vec<Vec<u8>> = Vec::new();
    let mut cur: Vec<u8> = Vec::new();
    let mut i: usize = 0;
    proof {
        assert(q@.skip(0) =~= q@);
        assert(views(out@) + query_tokens_acc(q@, cur@) =~= query_tokens_acc(q@, cur@));
    }
    while i < q.len()
        invariant
            i <= q@.len(),
            query_tokens(q@) == views(out@) + query_tokens_acc(q@.skip(i as int), cur@),
        decreases q@.len() - i,
    {
        let b = q[i];
        proof {
            assert(q@.skip(i as int).drop_first() =~= q@.skip(i as int + 1));
            assert(q@.skip(i as int)[0] == q@[i as int]);
        }
        if !(b == 32 || (9 <= b && b <= 13)) {
            cur.push(b);
        } else {
            if cur.len() > 0 {
                let ghost prev_out = out@;
                let ghost prev_cur = cur@;
                out.push(cur);
                cur = Vec::new();
                proof {
                    assert(views(out@) =~= views(prev_out).push(prev_cur));
                    assert(views(prev_out) + (seq![prev_cur] + query_tokens_acc(
                        q@.skip(i as int + 1),
                        Seq::empty(),
                    )) =~= views(out@) + query_tokens_acc(q@.skip(i as int + 1), cur@));
                }
            }
        }
        i += 1;
    }
    proof {
        assert(q@.skip(q@.len() as int) =~= Seq::<u8>::empty());
    }
    if cur.len() > 0 {
        let ghost prev_out = out@;
        let ghost prev_cur = cur@;
        out.push(cur);
        proof {
            assert(views(out@) =~= views(prev_out).push(prev_cur));
            assert(views(prev_out) + seq![prev_cur] =~= views(out@));
        }
        out
    } else {
        proof {
            assert(views(out@) + Seq::<Seq<u8>>::empty() =~= views(out@));
        }
        out
    }
}

} // verus!

