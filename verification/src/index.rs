//! The per-tab incremental TF-IDF index.
//!
//! The index keeps, per document, the set of distinct tokens last seen in it
//! (`document_bags`), and per token, one posting per document that currently
//! contains it, with its occurrence count (`word_indices`). A term frequency
//! is the posting's count over the document's token count, and scoring weighs
//! it by `ln((1 + N) / (1 + df))`; the index returns those exact integer
//! ingredients and leaves the transcendental evaluation to its caller.
//!
//! A token whose last owning document is removed keeps a vestigial, empty
//! entry in `word_indices`; this is deliberate, bounded by vocabulary size,
//! and invisible in the index's abstract state.

use vstd::prelude::*;

use crate::tokens::count_occ;
use crate::tokens::count_occurrences;
use crate::tokens::counts_of;
use crate::tokens::dedup_first;
use crate::tokens::dedup_words;
use crate::tokens::doc_tokens;
use crate::tokens::lemma_counts_of;
use crate::tokens::lemma_dedup_first_props;
use crate::tokens::query_tokens;
use crate::tokens::tokenize_document;
use crate::tokens::tokenize_query;
use crate::tokens::views;
use crate::tokens::bytes_eq;
use crate::tokens::clone_bytes;
use crate::tokens::contains_word;

verus! {

/// One document's presence in a token's index entry: its id and how often
/// the token occurs in it.
pub struct Posting {
    pub doc_id: usize,
    pub count: usize,
}

/// A token with one posting per document that currently contains it.
pub struct WordEntry {
    pub word: Vec<u8>,
    pub postings: Vec<Posting>,
}

/// A document's record: its token count and its distinct tokens.
pub struct DocBag {
    pub doc_id: usize,
    pub doc_len: usize,
    pub words: Vec<Vec<u8>>,
}

/// The per-tab index; see the module documentation.
pub struct TfidfIndex {
    pub number_of_documents: usize,
    pub document_bags: Vec<DocBag>,
    pub word_indices: Vec<WordEntry>,
}

/// The abstract state of one indexed document: its token count and the
/// occurrence count of each of its tokens.
#[verifier::ext_equal]
pub ghost struct DocModel {
    pub len: nat,
    pub counts: Map<Seq<u8>, nat>,
}

/// The abstract state of a document's tokens.
pub open spec fn doc_model(toks: Seq<Seq<u8>>) -> DocModel {
    DocModel { len: toks.len(), counts: counts_of(toks) }
}

/// Whether some bag records document `d`.
pub open spec fn has_doc(bags: Seq<DocBag>, d: int) -> bool {
    exists|i: int| 0 <= i < bags.len() && bags[i].doc_id == d
}

/// The index of document `d`'s bag.
pub open spec fn bag_index_of(bags: Seq<DocBag>, d: int) -> int {
    choose|i: int| 0 <= i < bags.len() && bags[i].doc_id == d
}

/// Document `d`'s bag.
pub open spec fn bag_of(bags: Seq<DocBag>, d: int) -> DocBag {
    bags[bag_index_of(bags, d)]
}

/// Whether some entry records token `w`.
pub open spec fn has_word(wi: Seq<WordEntry>, w: Seq<u8>) -> bool {
    exists|i: int| 0 <= i < wi.len() && wi[i].word@ == w
}

/// The index of token `w`'s entry.
pub open spec fn word_index_of(wi: Seq<WordEntry>, w: Seq<u8>) -> int {
    choose|i: int| 0 <= i < wi.len() && wi[i].word@ == w
}

/// Token `w`'s entry.
pub open spec fn entry_of(wi: Seq<WordEntry>, w: Seq<u8>) -> WordEntry {
    wi[word_index_of(wi, w)]
}

/// Whether `ps` holds a posting for document `d`.
pub open spec fn has_posting(ps: Seq<Posting>, d: int) -> bool {
    exists|j: int| 0 <= j < ps.len() && ps[j].doc_id == d
}

/// The posting for document `d` in `ps`.
pub open spec fn posting_of(ps: Seq<Posting>, d: int) -> Posting {
    ps[choose|j: int| 0 <= j < ps.len() && ps[j].doc_id == d]
}

/// The count the index stores for token `w` in document `d`, 0 if none.
pub open spec fn stored_count(wi: Seq<WordEntry>, w: Seq<u8>, d: int) -> nat {
    if has_word(wi, w) {
        let ps = entry_of(wi, w).postings@;
        if has_posting(ps, d) {
            posting_of(ps, d).count as nat
        } else {
            0
        }
    } else {
        0
    }
}

/// The stored occurrence counts of document `d`'s tokens.
pub open spec fn doc_counts(wi: Seq<WordEntry>, d: int) -> Map<Seq<u8>, nat> {
    Map::new(|w: Seq<u8>| stored_count(wi, w, d) > 0, |w: Seq<u8>| stored_count(wi, w, d))
}

impl View for TfidfIndex {
    type V = Map<int, DocModel>;

    /// The abstract state: each present document's model, keyed by its id.
    open spec fn view(&self) -> Map<int, DocModel> {
        Map::new(
            |d: int| has_doc(self.document_bags@, d),
            |d: int| DocModel {
                len: bag_of(self.document_bags@, d).doc_len as nat,
                counts: doc_counts(self.word_indices@, d),
            },
        )
    }
}

/// Postings hold distinct documents, each with a positive count.
pub open spec fn postings_wf(ps: Seq<Posting>) -> bool {
    &&& forall|j: int, k: int| 0 <= j < k < ps.len() ==> ps[j].doc_id != ps[k].doc_id
    &&& forall|j: int| 0 <= j < ps.len() ==> (#[trigger] ps[j]).count >= 1
}

impl TfidfIndex {
    /// Well-formedness: distinct documents and tokens, postings and bags in
    /// step with one another, and the document counter in step with the bags.
    pub open spec fn wf(self) -> bool {
        &&& forall|i: int, j: int|
            0 <= i < j < self.document_bags@.len() ==> self.document_bags@[i].doc_id
                != self.document_bags@[j].doc_id
        &&& forall|i: int|
            0 <= i < self.document_bags@.len() ==> views(
                (#[trigger] self.document_bags@[i]).words@,
            ).no_duplicates()
        &&& forall|i: int, j: int|
            0 <= i < j < self.word_indices@.len() ==> self.word_indices@[i].word@
                != self.word_indices@[j].word@
        &&& forall|i: int|
            0 <= i < self.word_indices@.len() ==> postings_wf(
                (#[trigger] self.word_indices@[i]).postings@,
            )
        &&& forall|w: Seq<u8>, d: int|
            stored_count(self.word_indices@, w, d) > 0 ==> has_doc(self.document_bags@, d) && views(
                bag_of(self.document_bags@, d).words@,
            ).contains(w)
        &&& forall|i: int, w: Seq<u8>|
            0 <= i < self.document_bags@.len() && #[trigger] views(
                self.document_bags@[i].words@,
            ).contains(w) ==> stored_count(self.word_indices@, w, self.document_bags@[i].doc_id as int) > 0
        &&& self.number_of_documents == self.document_bags@.len()
    }
}

/// A bag index looks itself up: with distinct ids, `bag_index_of` is exact.
pub proof fn lemma_bag_lookup(bags: Seq<DocBag>, i: int)
    requires
        forall|p: int, q: int| 0 <= p < q < bags.len() ==> bags[p].doc_id != bags[q].doc_id,
        0 <= i < bags.len(),
    ensures
        has_doc(bags, bags[i].doc_id as int),
        bag_index_of(bags, bags[i].doc_id as int) == i,
        bag_of(bags, bags[i].doc_id as int) == bags[i],
{
    assert(has_doc(bags, bags[i].doc_id as int));
    let i2 = bag_index_of(bags, bags[i].doc_id as int);
    assert(0 <= i2 < bags.len() && bags[i2].doc_id == bags[i].doc_id);
    if i2 != i {
        assert(false);
    }
}

/// A word entry looks itself up: with distinct words, `word_index_of` is exact.
pub proof fn lemma_word_lookup(wi: Seq<WordEntry>, i: int)
    requires
        forall|p: int, q: int| 0 <= p < q < wi.len() ==> wi[p].word@ != wi[q].word@,
        0 <= i < wi.len(),
    ensures
        has_word(wi, wi[i].word@),
        word_index_of(wi, wi[i].word@) == i,
        entry_of(wi, wi[i].word@) == wi[i],
{
    assert(has_word(wi, wi[i].word@));
    let i2 = word_index_of(wi, wi[i].word@);
    assert(0 <= i2 < wi.len() && wi[i2].word@ == wi[i].word@);
    if i2 != i {
        assert(false);
    }
}

/// A posting looks itself up: with distinct documents, `posting_of` is exact.
pub proof fn lemma_posting_lookup(ps: Seq<Posting>, j: int)
    requires
        forall|p: int, q: int| 0 <= p < q < ps.len() ==> ps[p].doc_id != ps[q].doc_id,
        0 <= j < ps.len(),
    ensures
        has_posting(ps, ps[j].doc_id as int),
        posting_of(ps, ps[j].doc_id as int) == ps[j],
{
    assert(has_posting(ps, ps[j].doc_id as int));
    let j2 = choose|k: int| 0 <= k < ps.len() && ps[k].doc_id == ps[j].doc_id;
    assert(0 <= j2 < ps.len() && ps[j2].doc_id == ps[j].doc_id);
    if j2 != j {
        assert(false);
    }
}

/// The abstract state has one entry per bag: its domain is finite and as
/// large as the bag list.
pub proof fn lemma_dom_len(idx: TfidfIndex)
    requires
        idx.wf(),
    ensures
        idx@.dom().finite(),
        idx@.dom().len() == idx.document_bags@.len(),
{
    let bags = idx.document_bags@;
    let ids = bags.map_values(|b: DocBag| b.doc_id as int);
    assert(ids.no_duplicates()) by {
        assert forall|p: int, q: int| 0 <= p < ids.len() && 0 <= q < ids.len() && p != q implies ids[p]
            != ids[q] by {
            assert(ids[p] == bags[p].doc_id as int);
            assert(ids[q] == bags[q].doc_id as int);
        }
    }
    assert(idx@.dom() =~= ids.to_set()) by {
        assert forall|d: int| idx@.dom().contains(d) implies ids.to_set().contains(d) by {
            let i = bag_index_of(bags, d);
            assert(ids[i] == d);
        }
        assert forall|d: int| ids.to_set().contains(d) implies idx@.dom().contains(d) by {
            let i = choose|i: int| 0 <= i < ids.len() && ids[i] == d;
            assert(bags[i].doc_id == d);
        }
    }
    ids.unique_seq_to_set();
}

/// The number of documents whose abstract state contains token `w`.
pub open spec fn df_of(docs: Map<int, DocModel>, w: Seq<u8>) -> nat {
    docs.dom().filter(|d: int| docs[d].counts.contains_key(w)).len()
}

/// Removing one posting keeps the rest intact: no other document's posting
/// changes, and the removed document has none left.
pub proof fn lemma_postings_remove(ps: Seq<Posting>, pj: int)
    requires
        postings_wf(ps),
        0 <= pj < ps.len(),
    ensures
        postings_wf(ps.remove(pj)),
        !has_posting(ps.remove(pj), ps[pj].doc_id as int),
        forall|d: int|
            d != ps[pj].doc_id ==> (has_posting(ps.remove(pj), d) <==> has_posting(ps, d)),
        forall|d: int|
            d != ps[pj].doc_id && has_posting(ps, d) ==> posting_of(ps.remove(pj), d)
                == posting_of(ps, d),
{
    let ps2 = ps.remove(pj);
    assert(forall|k: int|
        0 <= k < ps2.len() ==> ps2[k] == (if k < pj {
            ps[k]
        } else {
            ps[k + 1]
        }));
    assert forall|d: int| d != ps[pj].doc_id && has_posting(ps, d) implies has_posting(ps2, d)
        && posting_of(ps2, d) == posting_of(ps, d) by {
        let j = choose|j: int| 0 <= j < ps.len() && ps[j].doc_id == d;
        lemma_posting_lookup(ps, j);
        if j < pj {
            assert(ps2[j] == ps[j]);
            lemma_posting_lookup(ps2, j);
        } else {
            assert(j > pj);
            assert(ps2[j - 1] == ps[j]);
            lemma_posting_lookup(ps2, j - 1);
        }
    }
}

/// Appending a posting for a new document leaves the others intact.
pub proof fn lemma_postings_push(ps: Seq<Posting>, p: Posting)
    requires
        postings_wf(ps),
        !has_posting(ps, p.doc_id as int),
        p.count >= 1,
    ensures
        postings_wf(ps.push(p)),
        forall|d: int|
            has_posting(ps.push(p), d) <==> (has_posting(ps, d) || d == p.doc_id as int),
        posting_of(ps.push(p), p.doc_id as int) == p,
        forall|d: int|
            d != p.doc_id && has_posting(ps, d) ==> posting_of(ps.push(p), d) == posting_of(
                ps,
                d,
            ),
{
    let ps2 = ps.push(p);
    assert(forall|k: int|
        0 <= k < ps2.len() ==> ps2[k] == (if k < ps.len() {
            ps[k]
        } else {
            p
        }));
    assert(postings_wf(ps2)) by {
        assert forall|j: int, k: int| 0 <= j < k < ps2.len() implies ps2[j].doc_id
            != ps2[k].doc_id by {
            if k == ps.len() {
                if ps2[j].doc_id == p.doc_id {
                    assert(has_posting(ps, p.doc_id as int));
                }
            }
        }
    }
    lemma_posting_lookup(ps2, ps.len() as int);
    assert forall|d: int| d != p.doc_id && has_posting(ps, d) implies posting_of(ps2, d)
        == posting_of(ps, d) by {
        let j = choose|j: int| 0 <= j < ps.len() && ps[j].doc_id == d;
        lemma_posting_lookup(ps, j);
        lemma_posting_lookup(ps2, j);
    }
    assert forall|d: int| has_posting(ps2, d) implies (has_posting(ps, d) || d
        == p.doc_id as int) by {
        let j = choose|j: int| 0 <= j < ps2.len() && ps2[j].doc_id == d;
        if j < ps.len() {
            assert(ps[j].doc_id == d);
        }
    }
    assert forall|d: int| has_posting(ps, d) implies has_posting(ps2, d) by {
        let j = choose|j: int| 0 <= j < ps.len() && ps[j].doc_id == d;
        assert(ps2[j].doc_id == d);
    }
}

/// Removing a bag keeps every other bag where lookup finds it.
pub proof fn lemma_bags_remove(bags: Seq<DocBag>, i: int)
    requires
        forall|p: int, q: int| 0 <= p < q < bags.len() ==> bags[p].doc_id != bags[q].doc_id,
        0 <= i < bags.len(),
    ensures
        forall|p: int, q: int|
            0 <= p < q < bags.remove(i).len() ==> bags.remove(i)[p].doc_id != bags.remove(
                i,
            )[q].doc_id,
        !has_doc(bags.remove(i), bags[i].doc_id as int),
        forall|d: int| d != bags[i].doc_id ==> (has_doc(bags.remove(i), d) <==> has_doc(bags, d)),
        forall|d: int|
            d != bags[i].doc_id && has_doc(bags, d) ==> bag_of(bags.remove(i), d) == bag_of(
                bags,
                d,
            ),
        forall|k: int| 0 <= k < bags.remove(i).len() ==> bags.contains(#[trigger] bags.remove(i)[k]),
{
    let b2 = bags.remove(i);
    assert(forall|k: int|
        0 <= k < b2.len() ==> b2[k] == (if k < i {
            bags[k]
        } else {
            bags[k + 1]
        }));
    assert forall|k: int| 0 <= k < b2.len() implies bags.contains(#[trigger] b2[k]) by {
        if k < i {
            assert(bags[k] == b2[k]);
        } else {
            assert(bags[k + 1] == b2[k]);
        }
    }
    assert forall|d: int| d != bags[i].doc_id && has_doc(bags, d) implies has_doc(b2, d) && bag_of(
        b2,
        d,
    ) == bag_of(bags, d) by {
        let j = choose|j: int| 0 <= j < bags.len() && bags[j].doc_id == d;
        lemma_bag_lookup(bags, j);
        if j < i {
            assert(b2[j] == bags[j]);
            lemma_bag_lookup(b2, j);
        } else {
            assert(j > i);
            assert(b2[j - 1] == bags[j]);
            lemma_bag_lookup(b2, j - 1);
        }
    }
}

/// Appending a bag for a new document leaves the others where lookup finds
/// them.
pub proof fn lemma_bags_push(bags: Seq<DocBag>, b: DocBag)
    requires
        forall|p: int, q: int| 0 <= p < q < bags.len() ==> bags[p].doc_id != bags[q].doc_id,
        !has_doc(bags, b.doc_id as int),
    ensures
        forall|p: int, q: int|
            0 <= p < q < bags.push(b).len() ==> bags.push(b)[p].doc_id != bags.push(b)[q].doc_id,
        forall|d: int| has_doc(bags.push(b), d) <==> (has_doc(bags, d) || d == b.doc_id as int),
        bag_of(bags.push(b), b.doc_id as int) == b,
        forall|d: int|
            d != b.doc_id && has_doc(bags, d) ==> bag_of(bags.push(b), d) == bag_of(bags, d),
        forall|k: int|
            0 <= k < bags.push(b).len() ==> bags.push(b)[k] == b || bags.contains(
                #[trigger] bags.push(b)[k],
            ),
{
    let b2 = bags.push(b);
    assert(forall|k: int|
        0 <= k < b2.len() ==> b2[k] == (if k < bags.len() {
            bags[k]
        } else {
            b
        }));
    assert forall|p: int, q: int| 0 <= p < q < b2.len() implies b2[p].doc_id != b2[q].doc_id by {
        if q == bags.len() {
            if b2[p].doc_id == b.doc_id {
                assert(has_doc(bags, b.doc_id as int));
            }
        }
    }
    assert forall|d: int| has_doc(bags, d) implies has_doc(b2, d) by {
        let j = choose|j: int| 0 <= j < bags.len() && bags[j].doc_id == d;
        assert(b2[j].doc_id == d);
    }
    lemma_bag_lookup(b2, bags.len() as int);
    assert forall|d: int| d != b.doc_id && has_doc(bags, d) implies bag_of(b2, d) == bag_of(
        bags,
        d,
    ) by {
        let j = choose|j: int| 0 <= j < bags.len() && bags[j].doc_id == d;
        lemma_bag_lookup(bags, j);
        lemma_bag_lookup(b2, j);
    }
    assert forall|d: int| has_doc(b2, d) implies (has_doc(bags, d) || d == b.doc_id as int) by {
        let j = choose|j: int| 0 <= j < b2.len() && b2[j].doc_id == d;
        if j < bags.len() {
            assert(bags[j].doc_id == d);
        }
    }
}

/// Replacing one word's entry (by swap-removing it and pushing the new one)
/// leaves every other entry where lookup finds it.
pub proof fn lemma_entry_replaced(before: Seq<WordEntry>, wj: int, e2: WordEntry)
    requires
        forall|p: int, q: int| 0 <= p < q < before.len() ==> before[p].word@ != before[q].word@,
        0 <= wj < before.len(),
        e2.word@ == before[wj].word@,
    ensures
        ({
            let after = before.update(wj, before.last()).drop_last().push(e2);
            &&& forall|p: int, q: int| 0 <= p < q < after.len() ==> after[p].word@ != after[q].word@
            &&& forall|w: Seq<u8>| has_word(after, w) <==> has_word(before, w)
            &&& entry_of(after, e2.word@) == e2
            &&& forall|w: Seq<u8>|
                w != e2.word@ && has_word(before, w) ==> entry_of(after, w) == entry_of(before, w)
            &&& forall|k: int|
                0 <= k < after.len() ==> after[k] == e2 || before.contains(#[trigger] after[k])
        }),
{
    let n = before.len() as int;
    let after = before.update(wj, before.last()).drop_last().push(e2);
    assert(after.len() == n);
    assert(forall|k: int|
        0 <= k < n ==> after[k] == (if k == n - 1 {
            e2
        } else if k == wj {
            before[n - 1]
        } else {
            before[k]
        }));
    assert forall|k: int| 0 <= k < after.len() implies after[k] == e2 || before.contains(
        #[trigger] after[k],
    ) by {
        if k < n - 1 {
            if k == wj {
                assert(before[n - 1] == after[k]);
            } else {
                assert(before[k] == after[k]);
            }
        }
    }
    assert forall|p: int, q: int| 0 <= p < q < after.len() implies after[p].word@
        != after[q].word@ by {
        if q == n - 1 {
            if p == wj {
                assert(after[p].word@ == before[n - 1].word@);
                if wj < n - 1 {
                    assert(before[wj].word@ != before[n - 1].word@);
                }
            } else {
                assert(after[p].word@ == before[p].word@);
            }
        }
    }
    lemma_word_lookup(after, n - 1);
    assert forall|w: Seq<u8>| w != e2.word@ && has_word(before, w) implies has_word(after, w)
        && entry_of(after, w) == entry_of(before, w) by {
        let j = choose|j: int| 0 <= j < before.len() && before[j].word@ == w;
        lemma_word_lookup(before, j);
        if j == wj {
            assert(false);
        } else if j == n - 1 {
            assert(after[wj].word@ == w);
            lemma_word_lookup(after, wj);
        } else {
            assert(after[j].word@ == w);
            lemma_word_lookup(after, j);
        }
    }
    assert forall|w: Seq<u8>| has_word(after, w) implies has_word(before, w) by {
        let k = choose|k: int| 0 <= k < after.len() && after[k].word@ == w;
        if k == n - 1 {
            assert(before[wj].word@ == w);
        } else if k == wj {
            assert(before[n - 1].word@ == w);
        } else {
            assert(before[k].word@ == w);
        }
    }
    assert forall|w: Seq<u8>| has_word(before, w) implies has_word(after, w) by {
        let j = choose|j: int| 0 <= j < before.len() && before[j].word@ == w;
        if j == wj {
            assert(after[n - 1].word@ == w);
        } else if j == n - 1 {
            assert(after[wj].word@ == w);
        } else {
            assert(after[j].word@ == w);
        }
    }
}

/// Appending an entry for a new word leaves the others where lookup finds
/// them.
pub proof fn lemma_entry_pushed(before: Seq<WordEntry>, e2: WordEntry)
    requires
        forall|p: int, q: int| 0 <= p < q < before.len() ==> before[p].word@ != before[q].word@,
        !has_word(before, e2.word@),
    ensures
        ({
            let after = before.push(e2);
            &&& forall|p: int, q: int| 0 <= p < q < after.len() ==> after[p].word@ != after[q].word@
            &&& forall|w: Seq<u8>| has_word(after, w) <==> (has_word(before, w) || w == e2.word@)
            &&& entry_of(after, e2.word@) == e2
            &&& forall|w: Seq<u8>|
                w != e2.word@ && has_word(before, w) ==> entry_of(after, w) == entry_of(before, w)
            &&& forall|k: int|
                0 <= k < after.len() ==> after[k] == e2 || before.contains(#[trigger] after[k])
        }),
{
    let n = before.len() as int;
    let after = before.push(e2);
    assert(forall|k: int|
        0 <= k < after.len() ==> after[k] == (if k == n {
            e2
        } else {
            before[k]
        }));
    assert forall|k: int| 0 <= k < after.len() implies after[k] == e2 || before.contains(
        #[trigger] after[k],
    ) by {
        if k < n {
            assert(before[k] == after[k]);
        }
    }
    assert forall|p: int, q: int| 0 <= p < q < after.len() implies after[p].word@
        != after[q].word@ by {
        if q == n {
            if after[p].word@ == e2.word@ {
                assert(has_word(before, e2.word@));
            }
        }
    }
    lemma_word_lookup(after, n);
    assert forall|w: Seq<u8>| w != e2.word@ && has_word(before, w) implies has_word(after, w)
        && entry_of(after, w) == entry_of(before, w) by {
        let j = choose|j: int| 0 <= j < before.len() && before[j].word@ == w;
        lemma_word_lookup(before, j);
        assert(after[j].word@ == w);
        lemma_word_lookup(after, j);
    }
    assert forall|w: Seq<u8>| has_word(after, w) implies (has_word(before, w) || w
        == e2.word@) by {
        let k = choose|k: int| 0 <= k < after.len() && after[k].word@ == w;
        if k < n {
            assert(before[k].word@ == w);
        }
    }
}

/// Whether a word occurs in one of the first `i` bags.
pub open spec fn bag_prefix_has(bags: Seq<DocBag>, i: int, w: Seq<u8>) -> bool {
    exists|p: int| 0 <= p < i && views(#[trigger] bags[p].words@).contains(w)
}

/// The set of all distinct tokens across the indexed documents.
pub open spec fn vocab_spec(docs: Map<int, DocModel>) -> Set<Seq<u8>> {
    Set::new(
        |w: Seq<u8>|
            exists|d: int| #[trigger] docs.dom().contains(d) && docs[d].counts.contains_key(w),
    )
}

/// The stored posting list of a token is exactly one posting per document
/// containing it, so its length is the token's document frequency.
pub proof fn lemma_df(idx: TfidfIndex, w: Seq<u8>)
    requires
        idx.wf(),
    ensures
        has_word(idx.word_indices@, w) ==> entry_of(idx.word_indices@, w).postings@.len() == df_of(
            idx@,
            w,
        ),
        !has_word(idx.word_indices@, w) ==> df_of(idx@, w) == 0,
{
    lemma_dom_len(idx);
    let dset = idx@.dom().filter(|d: int| idx@[d].counts.contains_key(w));
    idx@.dom().lemma_len_filter(|d: int| idx@[d].counts.contains_key(w));
    if has_word(idx.word_indices@, w) {
        let wi = idx.word_indices@;
        let k = word_index_of(wi, w);
        assert(0 <= k < wi.len() && wi[k].word@ == w);
        let ps = entry_of(wi, w).postings@;
        assert(postings_wf(ps));
        let pids = ps.map_values(|p: Posting| p.doc_id as int);
        assert(pids.no_duplicates()) by {
            assert forall|p: int, q: int|
                0 <= p < pids.len() && 0 <= q < pids.len() && p != q implies pids[p] != pids[q] by {
                assert(pids[p] == ps[p].doc_id as int);
                assert(pids[q] == ps[q].doc_id as int);
            }
        }
        assert(pids.to_set() =~= dset) by {
            assert forall|d: int| pids.to_set().contains(d) implies dset.contains(d) by {
                let j = choose|j: int| 0 <= j < pids.len() && pids[j] == d;
                assert(ps[j].doc_id == d);
                lemma_posting_lookup(ps, j);
                assert(stored_count(idx.word_indices@, w, d) == ps[j].count as nat);
                assert(stored_count(idx.word_indices@, w, d) > 0);
                assert(idx@.dom().contains(d));
                assert(idx@[d].counts == doc_counts(idx.word_indices@, d));
                assert(idx@[d].counts.contains_key(w));
            }
            assert forall|d: int| dset.contains(d) implies pids.to_set().contains(d) by {
                assert(idx@[d].counts == doc_counts(idx.word_indices@, d));
                assert(stored_count(idx.word_indices@, w, d) > 0);
                assert(has_posting(ps, d));
                let j = choose|j: int| 0 <= j < ps.len() && ps[j].doc_id == d;
                assert(pids[j] == d);
            }
        }
        pids.unique_seq_to_set();
    } else {
        assert(dset =~= Set::<int>::empty()) by {
            assert forall|d: int| !dset.contains(d) by {
                if idx@.dom().contains(d) {
                    assert(idx@[d].counts == doc_counts(idx.word_indices@, d));
                    assert(stored_count(idx.word_indices@, w, d) == 0);
                }
            }
        }
    }
}

/// The position of document `doc_id`'s bag, if any.
fn find_bag(bags: &Vec<DocBag>, doc_id: usize) -> (r: Option<usize>)
    ensures
        match r {
            Some(i) => 0 <= i < bags@.len() && bags@[i as int].doc_id == doc_id,
            None => !has_doc(bags@, doc_id as int),
        },
{
    let mut i: usize = 0;
    while i < bags.len()
        invariant
            i <= bags@.len(),
            forall|j: int| 0 <= j < i ==> bags@[j].doc_id != doc_id,
        decreases bags@.len() - i,
    {
        if bags[i].doc_id == doc_id {
            return Some(i);
        }
        i += 1;
    }
    None
}

/// The position of token `w`'s entry, if any.
fn find_word(wi: &Vec<WordEntry>, w: &Vec<u8>) -> (r: Option<usize>)
    ensures
        match r {
            Some(i) => 0 <= i < wi@.len() && wi@[i as int].word@ == w@,
            None => !has_word(wi@, w@),
        },
{
    let mut i: usize = 0;
    while i < wi.len()
        invariant
            i <= wi@.len(),
            forall|j: int| 0 <= j < i ==> wi@[j].word@ != w@,
        decreases wi@.len() - i,
    {
        if bytes_eq(&wi[i].word, w) {
            return Some(i);
        }
        i += 1;
    }
    None
}

/// The position of document `doc_id`'s posting, if any.
fn find_posting(ps: &Vec<Posting>, doc_id: usize) -> (r: Option<usize>)
    ensures
        match r {
            Some(j) => 0 <= j < ps@.len() && ps@[j as int].doc_id == doc_id,
            None => !has_posting(ps@, doc_id as int),
        },
{
    let mut j: usize = 0;
    while j < ps.len()
        invariant
            j <= ps@.len(),
            forall|k: int| 0 <= k < j ==> ps@[k].doc_id != doc_id,
        decreases ps@.len() - j,
    {
        if ps[j].doc_id == doc_id {
            return Some(j);
        }
        j += 1;
    }
    None
}

impl TfidfIndex {
    /// An index with no documents.
    pub fn new() -> (r: TfidfIndex)
        ensures
            r.wf(),
            r@ == Map::<int, DocModel>::empty(),
    {
        let r = TfidfIndex {
            number_of_documents: 0,
            document_bags: Vec::new(),
            word_indices: Vec::new(),
        };
        proof {
            assert(r@ =~= Map::<int, DocModel>::empty());
        }
        r
    }

    /// Removes document `doc_id` from the index, if present: its bag goes,
    /// the document counter drops, and every posting it owned is deleted.
    /// Word entries stay behind, possibly empty. Unknown ids are a no-op.
    #[verifier::rlimit(80)]
    pub fn remove(&mut self, doc_id: usize)
        requires
            old(self).wf(),
        ensures
            final(self).wf(),
            final(self)@ == old(self)@.remove(doc_id as int),
    {
        let pos = find_bag(&self.document_bags, doc_id);
        match pos {
            None => {
                proof {
                    assert(old(self)@ =~= old(self)@.remove(doc_id as int));
                }
            },
            Some(i) => {
                proof {
                    lemma_bag_lookup(self.document_bags@, i as int);
                    lemma_bags_remove(self.document_bags@, i as int);
                }
                let bag = self.document_bags.remove(i);
                self.number_of_documents = self.document_bags.len();
                let ghost mid = *self;
                proof {
                    assert(forall|w: Seq<u8>, d: int|
                        stored_count(mid.word_indices@, w, d) == stored_count(old(self).word_indices@, w, d));
                }
                let mut k: usize = 0;
                while k < bag.words.len()
                    invariant
                        k <= bag.words@.len(),
                        self.document_bags@ == mid.document_bags@,
                        self.number_of_documents == mid.number_of_documents,
                        forall|p: int, q: int|
                            0 <= p < q < self.word_indices@.len() ==> self.word_indices@[p].word@
                                != self.word_indices@[q].word@,
                        forall|p: int|
                            0 <= p < self.word_indices@.len() ==> postings_wf(
                                (#[trigger] self.word_indices@[p]).postings@,
                            ),
                        forall|w: Seq<u8>|
                            has_word(self.word_indices@, w) <==> has_word(mid.word_indices@, w),
                        forall|w: Seq<u8>, d: int|
                            stored_count(self.word_indices@, w, d) == (if d == doc_id
                                && views(bag.words@).take(k as int).contains(w) {
                                0nat
                            } else {
                                stored_count(mid.word_indices@, w, d)
                            }),
                    decreases bag.words@.len() - k,
                {
                    let ghost pre = *self;
                    let ghost wv = bag.words@[k as int]@;
                    proof {
                        assert(views(bag.words@).take(k as int + 1).drop_last() =~= views(
                            bag.words@,
                        ).take(k as int));
                        assert(views(bag.words@).take(k as int + 1).last() == wv);
                    }
                    let fw = find_word(&self.word_indices, &bag.words[k]);
                    match fw {
                        None => {
                            proof {
                                assert(stored_count(self.word_indices@, wv, doc_id as int) == 0);
                                assert forall|w: Seq<u8>, d: int|
                                    stored_count(self.word_indices@, w, d) == (if d == doc_id && views(
                                        bag.words@,
                                    ).take(k as int + 1).contains(w) {
                                        0nat
                                    } else {
                                        stored_count(mid.word_indices@, w, d)
                                    }) by {
                                    crate::tokens::lemma_contains_push(
                                        views(bag.words@).take(k as int),
                                        wv,
                                        w,
                                    );
                                    assert(views(bag.words@).take(k as int).push(wv) =~= views(
                                        bag.words@,
                                    ).take(k as int + 1));
                                }
                            }
                        },
                        Some(wj) => {
                            proof {
                                lemma_word_lookup(self.word_indices@, wj as int);
                            }
                            let mut e = self.word_indices.swap_remove(wj);
                            let fp = find_posting(&e.postings, doc_id);
                            let ghost pre_ps = e.postings@;
                            match fp {
                                None => {},
                                Some(pj) => {
                                    proof {
                                        lemma_postings_remove(e.postings@, pj as int);
                                    }
                                    e.postings.remove(pj);
                                },
                            }
                            proof {
                                assert(postings_wf(e.postings@));
                                assert(!has_posting(e.postings@, doc_id as int));
                                assert(forall|d: int|
                                    d != doc_id ==> (has_posting(e.postings@, d) <==> has_posting(
                                        pre_ps,
                                        d,
                                    )));
                                assert(forall|d: int|
                                    d != doc_id && has_posting(pre_ps, d) ==> posting_of(
                                        e.postings@,
                                        d,
                                    ) == posting_of(pre_ps, d));
                            }
                            let ghost e_ps = e.postings@;
                            self.word_indices.push(e);
                            proof {
                                lemma_entry_replaced(
                                    pre.word_indices@,
                                    wj as int,
                                    self.word_indices@.last(),
                                );
                                assert(self.word_indices@ == pre.word_indices@.update(
                                    wj as int,
                                    pre.word_indices@.last(),
                                ).drop_last().push(self.word_indices@.last()));
                                assert forall|p: int|
                                    0 <= p < self.word_indices@.len() implies postings_wf(
                                    (#[trigger] self.word_indices@[p]).postings@,
                                ) by {
                                    if self.word_indices@[p] != self.word_indices@.last() {
                                        let j = choose|j: int|
                                            0 <= j < pre.word_indices@.len()
                                                && pre.word_indices@[j] == self.word_indices@[p];
                                        assert(postings_wf(pre.word_indices@[j].postings@));
                                    }
                                }
                                assert(pre.word_indices@[wj as int].postings@ == pre_ps);
                                assert(entry_of(pre.word_indices@, wv) == pre.word_indices@[wj as int]);
                                assert forall|w: Seq<u8>, d: int|
                                    stored_count(self.word_indices@, w, d) == (if d == doc_id && views(
                                        bag.words@,
                                    ).take(k as int + 1).contains(w) {
                                        0nat
                                    } else {
                                        stored_count(mid.word_indices@, w, d)
                                    }) by {
                                    crate::tokens::lemma_contains_push(
                                        views(bag.words@).take(k as int),
                                        wv,
                                        w,
                                    );
                                    assert(views(bag.words@).take(k as int).push(wv) =~= views(
                                        bag.words@,
                                    ).take(k as int + 1));
                                    if w == wv {
                                        assert(entry_of(self.word_indices@, w)
                                            == self.word_indices@.last());
                                        assert(entry_of(self.word_indices@, w).postings@
                                            == e_ps);
                                        if d == doc_id {
                                            assert(stored_count(self.word_indices@, w, d) == 0);
                                        } else if has_posting(pre_ps, d) {
                                            assert(posting_of(e_ps, d) == posting_of(pre_ps, d));
                                            assert(stored_count(self.word_indices@, w, d) == stored_count(
                                                pre.word_indices@,
                                                w,
                                                d,
                                            ));
                                        } else {
                                            assert(!has_posting(e_ps, d));
                                            assert(stored_count(self.word_indices@, w, d) == 0);
                                            assert(stored_count(pre.word_indices@, w, d) == 0);
                                        }
                                    } else {
                                        if has_word(pre.word_indices@, w) {
                                            assert(entry_of(self.word_indices@, w) == entry_of(
                                                pre.word_indices@,
                                                w,
                                            ));
                                        } else {
                                            assert(!has_word(self.word_indices@, w));
                                        }
                                        assert(stored_count(self.word_indices@, w, d) == stored_count(
                                            pre.word_indices@,
                                            w,
                                            d,
                                        ));
                                    }
                                }
                            }
                        },
                    }
                    k += 1;
                }
                proof {
                    assert(views(bag.words@).take(bag.words@.len() as int) =~= views(bag.words@));
                    let obags = old(self).document_bags@;
                    assert(bag_of(obags, doc_id as int) == bag);
                    // Any posting for `doc_id` belonged to a word of its bag,
                    // so none is left.
                    assert forall|w: Seq<u8>|
                        stored_count(self.word_indices@, w, doc_id as int) == 0 by {
                        if !views(bag.words@).contains(w) {
                            assert(stored_count(old(self).word_indices@, w, doc_id as int) > 0 ==> views(
                                bag_of(obags, doc_id as int).words@,
                            ).contains(w));
                        }
                    }
                    // Well-formedness of the result.
                    assert forall|w: Seq<u8>, d: int|
                        stored_count(self.word_indices@, w, d) > 0 implies has_doc(self.document_bags@, d)
                        && views(bag_of(self.document_bags@, d).words@).contains(w) by {
                        assert(d != doc_id);
                        assert(stored_count(old(self).word_indices@, w, d) > 0);
                    }
                    assert forall|p: int, w: Seq<u8>|
                        0 <= p < self.document_bags@.len() && #[trigger] views(
                            self.document_bags@[p].words@,
                        ).contains(w) implies stored_count(
                        self.word_indices@,
                        w,
                        self.document_bags@[p].doc_id as int,
                    ) > 0 by {
                        let j = choose|j: int|
                            0 <= j < obags.len() && obags[j] == self.document_bags@[p];
                        assert(views(obags[j].words@).contains(w));
                        assert(stored_count(old(self).word_indices@, w, obags[j].doc_id as int) > 0);
                        assert(self.document_bags@[p].doc_id != doc_id);
                    }
                    assert forall|p: int|
                        0 <= p < self.document_bags@.len() implies views(
                        (#[trigger] self.document_bags@[p]).words@,
                    ).no_duplicates() by {
                        let j = choose|j: int|
                            0 <= j < obags.len() && obags[j] == self.document_bags@[p];
                        assert(views(obags[j].words@).no_duplicates());
                    }
                    assert(self.wf());
                    // The abstract state lost exactly `doc_id`.
                    assert forall|d: int|
                        d != doc_id && has_doc(self.document_bags@, d) implies doc_counts(
                        self.word_indices@,
                        d,
                    ) == doc_counts(old(self).word_indices@, d) by {
                        assert(doc_counts(self.word_indices@, d) =~= doc_counts(old(self).word_indices@, d));
                    }
                    assert(self@ =~~= old(self)@.remove(doc_id as int));
                }
            },
        }
    }

    /// Replaces document `doc_id`'s content: any prior state for the id is
    /// removed first, then the new tokens are counted and indexed, so
    /// indexing the same id twice is last-write-wins.
    #[verifier::rlimit(80)]
    pub fn update(&mut self, doc_id: usize, content: &Vec<u8>)
        requires
            old(self).wf(),
        ensures
            final(self).wf(),
            final(self)@ == old(self)@.insert(doc_id as int, doc_model(doc_tokens(content@))),
    {
        self.remove(doc_id);
        let ghost mid = *self;
        proof {
            assert(!mid@.dom().contains(doc_id as int));
            assert(!has_doc(mid.document_bags@, doc_id as int)) by {
                if has_doc(mid.document_bags@, doc_id as int) {
                    assert(mid@.dom().contains(doc_id as int));
                }
            }
            assert forall|w: Seq<u8>| stored_count(mid.word_indices@, w, doc_id as int) == 0 by {
                if stored_count(mid.word_indices@, w, doc_id as int) > 0 {
                    assert(has_doc(mid.document_bags@, doc_id as int));
                }
            }
        }
        let toks = tokenize_document(content);
        let distinct = dedup_words(&toks);
        let ghost tv = views(toks@);
        let ghost dv = views(distinct@);
        proof {
            lemma_dedup_first_props(tv);
        }
        let mut k: usize = 0;
        while k < distinct.len()
            invariant
                k <= distinct@.len(),
                mid.wf(),
                !has_doc(mid.document_bags@, doc_id as int),
                forall|w: Seq<u8>| stored_count(mid.word_indices@, w, doc_id as int) == 0,
                tv == views(toks@),
                dv == views(distinct@),
                dv == dedup_first(tv),
                dv.no_duplicates(),
                forall|w: Seq<u8>| dv.contains(w) <==> tv.contains(w),
                self.document_bags@ == mid.document_bags@,
                self.number_of_documents == mid.number_of_documents,
                forall|p: int, q: int|
                    0 <= p < q < self.word_indices@.len() ==> self.word_indices@[p].word@
                        != self.word_indices@[q].word@,
                forall|p: int|
                    0 <= p < self.word_indices@.len() ==> postings_wf(
                        (#[trigger] self.word_indices@[p]).postings@,
                    ),
                forall|w: Seq<u8>|
                    has_word(self.word_indices@, w) <==> (has_word(mid.word_indices@, w)
                        || dv.take(k as int).contains(w)),
                forall|w: Seq<u8>, d: int|
                    stored_count(self.word_indices@, w, d) == (if d == doc_id && dv.take(k as int).contains(w) {
                        count_occ(tv, w)
                    } else {
                        stored_count(mid.word_indices@, w, d)
                    }),
            decreases distinct@.len() - k,
        {
            let ghost pre = *self;
            let ghost wv = distinct@[k as int]@;
            proof {
                assert(forall|w: Seq<u8>|
                    has_word(pre.word_indices@, w) <==> (has_word(mid.word_indices@, w)
                        || dv.take(k as int).contains(w)));
                assert(forall|w: Seq<u8>, d: int|
                    stored_count(pre.word_indices@, w, d) == (if d == doc_id && dv.take(
                        k as int,
                    ).contains(w) {
                        count_occ(tv, w)
                    } else {
                        stored_count(mid.word_indices@, w, d)
                    }));
                assert(dv.take(k as int + 1).drop_last() =~= dv.take(k as int));
                assert(dv.take(k as int + 1).last() == wv);
                assert(dv.contains(wv)) by {
                    assert(dv[k as int] == wv);
                }
                assert(!dv.take(k as int).contains(wv)) by {
                    if dv.take(k as int).contains(wv) {
                        let j = choose|j: int| 0 <= j < k && dv.take(k as int)[j] == wv;
                        assert(dv[j] == wv);
                        assert(dv[k as int] == wv);
                    }
                }
                assert(stored_count(pre.word_indices@, wv, doc_id as int) == 0);
                lemma_counts_of(tv, wv);
            }
            let c = count_occurrences(&toks, &distinct[k]);
            proof {
                assert(c >= 1);
            }
            let fw = find_word(&self.word_indices, &distinct[k]);
            match fw {
                Some(wj) => {
                    proof {
                        lemma_word_lookup(self.word_indices@, wj as int);
                        assert(entry_of(pre.word_indices@, wv) == pre.word_indices@[wj as int]);
                        assert(!has_posting(pre.word_indices@[wj as int].postings@, doc_id as int))
                            by {
                            if has_posting(pre.word_indices@[wj as int].postings@, doc_id as int) {
                                assert(stored_count(pre.word_indices@, wv, doc_id as int) > 0);
                            }
                        }
                    }
                    let mut e = self.word_indices.swap_remove(wj);
                    let ghost pre_ps = e.postings@;
                    proof {
                        lemma_postings_push(pre_ps, Posting { doc_id, count: c });
                    }
                    e.postings.push(Posting { doc_id, count: c });
                    let ghost e_ps = e.postings@;
                    self.word_indices.push(e);
                    proof {
                        lemma_entry_replaced(
                            pre.word_indices@,
                            wj as int,
                            self.word_indices@.last(),
                        );
                        assert(self.word_indices@ == pre.word_indices@.update(
                            wj as int,
                            pre.word_indices@.last(),
                        ).drop_last().push(self.word_indices@.last()));
                        assert forall|p: int|
                            0 <= p < self.word_indices@.len() implies postings_wf(
                            (#[trigger] self.word_indices@[p]).postings@,
                        ) by {
                            if self.word_indices@[p] != self.word_indices@.last() {
                                let j = choose|j: int|
                                    0 <= j < pre.word_indices@.len() && pre.word_indices@[j]
                                        == self.word_indices@[p];
                                assert(postings_wf(pre.word_indices@[j].postings@));
                            }
                        }
                        assert forall|w: Seq<u8>, d: int|
                            stored_count(self.word_indices@, w, d) == (if d == doc_id && dv.take(
                                k as int + 1,
                            ).contains(w) {
                                count_occ(tv, w)
                            } else {
                                stored_count(mid.word_indices@, w, d)
                            }) by {
                            crate::tokens::lemma_contains_push(dv.take(k as int), wv, w);
                            assert(dv.take(k as int).push(wv) =~= dv.take(k as int + 1));
                            if w == wv {
                                assert(entry_of(self.word_indices@, w)
                                    == self.word_indices@.last());
                                assert(entry_of(self.word_indices@, w).postings@ == e_ps);
                                if d == doc_id {
                                    assert(posting_of(e_ps, d) == Posting { doc_id, count: c });
                                    assert(stored_count(self.word_indices@, w, d) == c as nat);
                                } else if has_posting(pre_ps, d) {
                                    assert(posting_of(e_ps, d) == posting_of(pre_ps, d));
                                    assert(stored_count(self.word_indices@, w, d) == stored_count(pre.word_indices@, w, d));
                                } else {
                                    assert(!has_posting(e_ps, d));
                                    assert(stored_count(self.word_indices@, w, d) == 0);
                                    assert(stored_count(pre.word_indices@, w, d) == 0);
                                }
                            } else {
                                if has_word(pre.word_indices@, w) {
                                    assert(entry_of(self.word_indices@, w) == entry_of(
                                        pre.word_indices@,
                                        w,
                                    ));
                                } else {
                                    assert(!has_word(self.word_indices@, w));
                                }
                                assert(stored_count(self.word_indices@, w, d) == stored_count(pre.word_indices@, w, d));
                            }
                        }
                        assert forall|w: Seq<u8>|
                            has_word(self.word_indices@, w) <==> (has_word(mid.word_indices@, w)
                                || dv.take(k as int + 1).contains(w)) by {
                            crate::tokens::lemma_contains_push(dv.take(k as int), wv, w);
                            assert(dv.take(k as int).push(wv) =~= dv.take(k as int + 1));
                            assert(has_word(pre.word_indices@, wv));
                        }
                    }
                },
                None => {
                    let mut ps: Vec<Posting> = Vec::new();
                    ps.push(Posting { doc_id, count: c });
                    let we = WordEntry { word: clone_bytes(&distinct[k]), postings: ps };
                    self.word_indices.push(we);
                    proof {
                        lemma_entry_pushed(pre.word_indices@, self.word_indices@.last());
                        assert(self.word_indices@ == pre.word_indices@.push(
                            self.word_indices@.last(),
                        ));
                        assert(postings_wf(self.word_indices@.last().postings@));
                        assert forall|p: int|
                            0 <= p < self.word_indices@.len() implies postings_wf(
                            (#[trigger] self.word_indices@[p]).postings@,
                        ) by {
                            if self.word_indices@[p] != self.word_indices@.last() {
                                let j = choose|j: int|
                                    0 <= j < pre.word_indices@.len() && pre.word_indices@[j]
                                        == self.word_indices@[p];
                                assert(postings_wf(pre.word_indices@[j].postings@));
                            }
                        }
                        assert forall|w: Seq<u8>, d: int|
                            stored_count(self.word_indices@, w, d) == (if d == doc_id && dv.take(
                                k as int + 1,
                            ).contains(w) {
                                count_occ(tv, w)
                            } else {
                                stored_count(mid.word_indices@, w, d)
                            }) by {
                            crate::tokens::lemma_contains_push(dv.take(k as int), wv, w);
                            assert(dv.take(k as int).push(wv) =~= dv.take(k as int + 1));
                            if w == wv {
                                assert(entry_of(self.word_indices@, w)
                                    == self.word_indices@.last());
                                if d == doc_id {
                                    lemma_posting_lookup(self.word_indices@.last().postings@, 0);
                                    assert(posting_of(
                                        self.word_indices@.last().postings@,
                                        doc_id as int,
                                    ) == self.word_indices@.last().postings@[0]);
                                    assert(stored_count(self.word_indices@, w, d) == c as nat);
                                } else {
                                    assert(!has_posting(
                                        self.word_indices@.last().postings@,
                                        d,
                                    ));
                                    assert(stored_count(self.word_indices@, w, d) == 0);
                                    assert(!has_word(pre.word_indices@, w));
                                    assert(stored_count(pre.word_indices@, w, d) == 0);
                                }
                            } else {
                                if has_word(pre.word_indices@, w) {
                                    assert(entry_of(self.word_indices@, w) == entry_of(
                                        pre.word_indices@,
                                        w,
                                    ));
                                } else {
                                    assert(!has_word(self.word_indices@, w));
                                }
                                assert(stored_count(self.word_indices@, w, d) == stored_count(pre.word_indices@, w, d));
                            }
                        }
                        assert forall|w: Seq<u8>|
                            has_word(self.word_indices@, w) <==> (has_word(mid.word_indices@, w)
                                || dv.take(k as int + 1).contains(w)) by {
                            crate::tokens::lemma_contains_push(dv.take(k as int), wv, w);
                            assert(dv.take(k as int).push(wv) =~= dv.take(k as int + 1));
                            assert(self.word_indices@.last().word@ == wv);
                            assert(has_word(self.word_indices@, w) <==> (has_word(
                                pre.word_indices@,
                                w,
                            ) || w == wv));
                            assert(has_word(pre.word_indices@, w) <==> (has_word(
                                mid.word_indices@,
                                w,
                            ) || dv.take(k as int).contains(w)));
                        }
                    }
                },
            }
            k += 1;
        }
        proof {
            assert(dv.take(distinct@.len() as int) =~= dv);
        }
        let doc_len = toks.len();
        let bag = DocBag { doc_id, doc_len, words: distinct };
        let ghost mid_bags = self.document_bags@;
        self.document_bags.push(bag);
        self.number_of_documents = self.document_bags.len();
        proof {
            let nb = self.document_bags@.last();
            lemma_bags_push(mid_bags, nb);
            assert(views(nb.words@) == dv);
            assert(nb.doc_len == tv.len());
            // Well-formedness.
            assert(forall|p: int|
                0 <= p < mid_bags.len() ==> self.document_bags@[p] == mid_bags[p]);
            assert forall|p: int|
                0 <= p < self.document_bags@.len() implies views(
                (#[trigger] self.document_bags@[p]).words@,
            ).no_duplicates() by {
                if p < mid_bags.len() {
                    assert(views(mid.document_bags@[p].words@).no_duplicates());
                }
            }
            assert forall|w: Seq<u8>, d: int|
                stored_count(self.word_indices@, w, d) > 0 implies has_doc(self.document_bags@, d) && views(
                bag_of(self.document_bags@, d).words@,
            ).contains(w) by {
                if d == doc_id {
                    assert(dv.contains(w));
                    assert(bag_of(self.document_bags@, d) == nb);
                } else {
                    assert(stored_count(mid.word_indices@, w, d) > 0);
                    assert(has_doc(mid.document_bags@, d));
                    assert(bag_of(self.document_bags@, d) == bag_of(mid.document_bags@, d));
                }
            }
            assert forall|p: int, w: Seq<u8>|
                0 <= p < self.document_bags@.len() && #[trigger] views(
                    self.document_bags@[p].words@,
                ).contains(w) implies stored_count(
                self.word_indices@,
                w,
                self.document_bags@[p].doc_id as int,
            ) > 0 by {
                if p < mid_bags.len() {
                    assert(self.document_bags@[p] == mid.document_bags@[p]);
                    assert(stored_count(mid.word_indices@, w, mid.document_bags@[p].doc_id as int) > 0);
                    assert(mid.document_bags@[p].doc_id != doc_id) by {
                        lemma_bag_lookup(mid.document_bags@, p);
                    }
                } else {
                    assert(self.document_bags@[p] == nb);
                    assert(dv.contains(w));
                    lemma_counts_of(tv, w);
                    assert(stored_count(self.word_indices@, w, doc_id as int) == count_occ(tv, w));
                }
            }
            assert(self.wf());
            // The abstract state gained exactly `doc_id`, bound to the model
            // of the new tokens.
            assert(tv == doc_tokens(content@));
            assert forall|w: Seq<u8>| true implies #[trigger] doc_counts(self.word_indices@, doc_id as int)
                .contains_key(w) == counts_of(tv).contains_key(w) && (counts_of(
                tv,
            ).contains_key(w) ==> doc_counts(self.word_indices@, doc_id as int)[w] == counts_of(tv)[w]) by {
                lemma_counts_of(tv, w);
            }
            assert(doc_counts(self.word_indices@, doc_id as int) =~= counts_of(tv));
            assert(self@[doc_id as int] == doc_model(doc_tokens(content@))) by {
                assert(self@[doc_id as int].len == nb.doc_len as nat);
            }
            assert forall|d: int|
                d != doc_id && has_doc(mid.document_bags@, d) implies doc_counts(self.word_indices@, d)
                == doc_counts(mid.word_indices@, d) by {
                assert(doc_counts(self.word_indices@, d) =~= doc_counts(mid.word_indices@, d));
            }
            assert(self@ =~~= mid@.insert(doc_id as int, doc_model(doc_tokens(content@))));
            assert(self@ =~~= old(self)@.insert(doc_id as int, doc_model(doc_tokens(content@))));
        }
    }

    /// The distinct tokens across all currently indexed documents, with no
    /// stale token from a removed document.
    pub fn vocabulary(&self) -> (r: Vec<Vec<u8>>)
        requires
            self.wf(),
        ensures
            views(r@).no_duplicates(),
            forall|w: Seq<u8>| views(r@).contains(w) <==> vocab_spec(self@).contains(w),
    {
        let mut out: Vec<Vec<u8>> = Vec::new();
        let mut i: usize = 0;
        while i < self.document_bags.len()
            invariant
                self.wf(),
                i <= self.document_bags@.len(),
                views(out@).no_duplicates(),
                forall|w: Seq<u8>|
                    views(out@).contains(w) <==> bag_prefix_has(self.document_bags@, i as int, w),
            decreases self.document_bags@.len() - i,
        {
            let mut j: usize = 0;
            while j < self.document_bags[i].words.len()
                invariant
                    self.wf(),
                    i < self.document_bags@.len(),
                    j <= self.document_bags@[i as int].words@.len(),
                    views(out@).no_duplicates(),
                    forall|w: Seq<u8>|
                        views(out@).contains(w) <==> (bag_prefix_has(
                            self.document_bags@,
                            i as int,
                            w,
                        ) || views(self.document_bags@[i as int].words@).take(j as int).contains(
                            w,
                        )),
                decreases self.document_bags@[i as int].words@.len() - j,
            {
                let ghost wv = self.document_bags@[i as int].words@[j as int]@;
                let ghost wsv = views(self.document_bags@[i as int].words@);
                let ghost prev = out@;
                proof {
                    assert(wsv.take(j as int).push(wv) =~= wsv.take(j as int + 1));
                }
                if !contains_word(&out, &self.document_bags[i].words[j]) {
                    out.push(clone_bytes(&self.document_bags[i].words[j]));
                    proof {
                        assert(views(out@) =~= views(prev).push(wv));
                        assert(views(out@).no_duplicates());
                    }
                }
                proof {
                    assert forall|w: Seq<u8>|
                        views(out@).contains(w) <==> (bag_prefix_has(
                            self.document_bags@,
                            i as int,
                            w,
                        ) || wsv.take(j as int + 1).contains(w)) by {
                        crate::tokens::lemma_contains_push(wsv.take(j as int), wv, w);
                        crate::tokens::lemma_contains_push(views(prev), wv, w);
                        if views(prev).contains(wv) {
                            assert(views(out@) == views(prev));
                        } else {
                            assert(views(out@) == views(prev).push(wv));
                        }
                    }
                }
                j += 1;
            }
            proof {
                let ghost wsv = views(self.document_bags@[i as int].words@);
                assert(wsv.take(wsv.len() as int) =~= wsv);
                assert forall|w: Seq<u8>|
                    views(out@).contains(w) <==> bag_prefix_has(
                        self.document_bags@,
                        i as int + 1,
                        w,
                    ) by {
                    if bag_prefix_has(self.document_bags@, i as int + 1, w) {
                        let p = choose|p: int|
                            0 <= p < i + 1 && views(
                                #[trigger] self.document_bags@[p].words@,
                            ).contains(w);
                        if p < i {
                            assert(bag_prefix_has(self.document_bags@, i as int, w));
                        }
                    }
                }
            }
            i += 1;
        }
        proof {
            assert forall|w: Seq<u8>|
                views(out@).contains(w) <==> vocab_spec(self@).contains(w) by {
                let bags = self.document_bags@;
                if views(out@).contains(w) {
                    let p = choose|p: int|
                        0 <= p < bags.len() && views(#[trigger] bags[p].words@).contains(w);
                    lemma_bag_lookup(bags, p);
                    let d = bags[p].doc_id as int;
                    assert(stored_count(self.word_indices@, w, d) > 0);
                    assert(self@.dom().contains(d));
                    assert(self@[d].counts.contains_key(w));
                }
                if vocab_spec(self@).contains(w) {
                    let d = choose|d: int|
                        #[trigger] self@.dom().contains(d) && self@[d].counts.contains_key(w);
                    assert(stored_count(self.word_indices@, w, d) > 0);
                    assert(views(bag_of(bags, d).words@).contains(w));
                    let p = bag_index_of(bags, d);
                    assert(views(bags[p].words@).contains(w));
                    assert(bag_prefix_has(bags, bags.len() as int, w));
                }
            }
        }
        out
    }
}

/// One query token's contribution to one document's score: the token's
/// occurrence count in the document, the document's token count, and the
/// token's document frequency. The score contribution is
/// `(count / doc_len) * ln((1 + N) / (1 + df))`, left to the caller to
/// evaluate.
pub struct ScoreTerm {
    pub count: usize,
    pub doc_len: usize,
    pub df: usize,
}

/// One scored document: its id and its contributions, one per distinct
/// query token it contains, in query order.
pub struct ScoreEntry {
    pub doc_id: usize,
    pub terms: Vec<ScoreTerm>,
}

/// The outcome of scoring a query: the number of indexed documents and one
/// entry per document containing at least one query token, in ascending
/// document order.
pub struct ScoreResult {
    pub n_docs: usize,
    pub entries: Vec<ScoreEntry>,
}

/// The integer contents of a list of score terms.
pub open spec fn term_views(ts: Seq<ScoreTerm>) -> Seq<(int, int, int)> {
    ts.map_values(|t: ScoreTerm| (t.count as int, t.doc_len as int, t.df as int))
}

/// The contributions document `d` owes to the distinct query tokens `qd`,
/// in order: one `(count, doc_len, df)` triple per token it contains.
pub open spec fn terms_spec(docs: Map<int, DocModel>, qd: Seq<Seq<u8>>, d: int) -> Seq<
    (int, int, int),
>
    decreases qd.len(),
{
    if qd.len() == 0 {
        Seq::empty()
    } else {
        let rest = terms_spec(docs, qd.drop_last(), d);
        let w = qd.last();
        if docs[d].counts.contains_key(w) {
            rest.push(
                (docs[d].counts[w] as int, docs[d].len as int, df_of(docs, w) as int),
            )
        } else {
            rest
        }
    }
}

/// What scoring must return for the documents `docs` and the deduplicated
/// query tokens `qd`: exactly the documents containing at least one query
/// token, in ascending order, each with exactly its contributions, plus the
/// document count.
pub open spec fn score_result_ok(
    docs: Map<int, DocModel>,
    qd: Seq<Seq<u8>>,
    r: ScoreResult,
) -> bool {
    &&& r.n_docs as int == docs.dom().len() as int
    &&& forall|k: int|
        0 <= k < r.entries@.len() ==> docs.dom().contains(
            (#[trigger] r.entries@[k]).doc_id as int,
        )
    &&& forall|k: int|
        0 <= k < r.entries@.len() ==> term_views((#[trigger] r.entries@[k]).terms@) == terms_spec(
            docs,
            qd,
            r.entries@[k].doc_id as int,
        )
    &&& forall|k: int|
        0 <= k < r.entries@.len() ==> terms_spec(
            docs,
            qd,
            (#[trigger] r.entries@[k]).doc_id as int,
        ).len() > 0
    &&& forall|d: int|
        docs.dom().contains(d) && #[trigger] terms_spec(docs, qd, d).len() > 0 ==> exists|k: int|
            0 <= k < r.entries@.len() && (#[trigger] r.entries@[k]).doc_id == d
    &&& forall|k1: int, k2: int|
        0 <= k1 < k2 < r.entries@.len() ==> r.entries@[k1].doc_id < r.entries@[k2].doc_id
}

/// The ids of all indexed documents, in ascending order.
fn sorted_doc_ids(bags: &Vec<DocBag>) -> (r: Vec<usize>)
    requires
        forall|p: int, q: int| 0 <= p < q < bags@.len() ==> bags@[p].doc_id != bags@[q].doc_id,
    ensures
        forall|p: int, q: int| 0 <= p < q < r@.len() ==> r@[p] < r@[q],
        forall|d: int|
            #[trigger] has_doc(bags@, d) <==> exists|p: int|
                0 <= p < r@.len() && #[trigger] r@[p] == d,
{
    let mut out: Vec<usize> = Vec::new();
    let mut i: usize = 0;
    proof {
        assert forall|d: int| !has_doc(bags@.take(0), d) by {
            if has_doc(bags@.take(0), d) {
                let p = choose|p: int|
                    0 <= p < bags@.take(0).len() && #[trigger] bags@.take(0)[p].doc_id == d;
            }
        }
    }
    while i < bags.len()
        invariant
            i <= bags@.len(),
            forall|p: int, q: int| 0 <= p < q < bags@.len() ==> bags@[p].doc_id != bags@[q].doc_id,
            forall|p: int, q: int| 0 <= p < q < out@.len() ==> out@[p] < out@[q],
            forall|d: int|
                #[trigger] has_doc(bags@.take(i as int), d) <==> exists|p: int|
                    0 <= p < out@.len() && #[trigger] out@[p] == d,
        decreases bags@.len() - i,
    {
        let x = bags[i].doc_id;
        let ghost prev = out@;
        proof {
            assert(!prev.contains(x)) by {
                if prev.contains(x) {
                    let p = choose|p: int| 0 <= p < prev.len() && prev[p] == x;
                    assert(has_doc(bags@.take(i as int), x as int));
                    let p2 = choose|p2: int|
                        0 <= p2 < bags@.take(i as int).len() && #[trigger] bags@.take(
                            i as int,
                        )[p2].doc_id == x as int;
                    assert(bags@[p2].doc_id == bags@[i as int].doc_id);
                }
            }
        }
        let mut j: usize = 0;
        while j < out.len() && out[j] < x
            invariant
                j <= out@.len(),
                out@ == prev,
                !prev.contains(x),
                forall|p: int, q: int| 0 <= p < q < out@.len() ==> out@[p] < out@[q],
                forall|p: int| 0 <= p < j ==> out@[p] < x,
            decreases out@.len() - j,
        {
            j += 1;
        }
        proof {
            assert forall|p: int| j <= p < prev.len() implies prev[p] > x by {
                assert(prev[p] != x) by {
                    if prev[p] == x {
                        assert(prev.contains(x));
                    }
                }
                assert(prev[j as int] != x) by {
                    if prev[j as int] == x {
                        assert(prev.contains(x));
                    }
                }
            }
        }
        out.insert(j, x);
        proof {
            assert(out@ == prev.insert(j as int, x));
            assert(forall|p: int|
                0 <= p < out@.len() ==> out@[p] == (if p < j {
                    prev[p]
                } else if p == j {
                    x
                } else {
                    prev[p - 1]
                }));
            assert forall|p: int, q: int| 0 <= p < q < out@.len() implies out@[p] < out@[q] by {
                if p == j {
                    assert(out@[q] == prev[q - 1] && j <= q - 1 < prev.len());
                    assert(prev[q - 1] >= x);
                    assert(prev[q - 1] != x);
                } else if q == j {
                    assert(out@[p] == prev[p] && p < j);
                }
            }
            assert forall|d: int|
                #[trigger] has_doc(bags@.take(i as int + 1), d) <==> exists|p: int|
                    0 <= p < out@.len() && #[trigger] out@[p] == d by {
                if has_doc(bags@.take(i as int + 1), d) {
                    let p = choose|p: int|
                        0 <= p < bags@.take(i as int + 1).len() && #[trigger] bags@.take(
                            i as int + 1,
                        )[p].doc_id == d;
                    if p < i {
                        assert(bags@.take(i as int)[p].doc_id == d);
                        assert(has_doc(bags@.take(i as int), d));
                        let p2 = choose|p2: int| 0 <= p2 < prev.len() && #[trigger] prev[p2] == d;
                        if p2 < j {
                            assert(out@[p2] == d);
                        } else {
                            assert(out@[p2 + 1] == d);
                        }
                    } else {
                        assert(out@[j as int] == d);
                    }
                }
                if exists|p: int| 0 <= p < out@.len() && #[trigger] out@[p] == d {
                    let p = choose|p: int| 0 <= p < out@.len() && #[trigger] out@[p] == d;
                    if p < j {
                        assert(prev[p] == d);
                        assert(has_doc(bags@.take(i as int), d));
                        let p2 = choose|p2: int|
                            0 <= p2 < bags@.take(i as int).len() && #[trigger] bags@.take(
                                i as int,
                            )[p2].doc_id == d;
                        assert(bags@.take(i as int + 1)[p2].doc_id == d);
                    } else if p == j {
                        assert(bags@.take(i as int + 1)[i as int].doc_id == d);
                    } else {
                        assert(prev[p - 1] == d);
                        assert(has_doc(bags@.take(i as int), d));
                        let p2 = choose|p2: int|
                            0 <= p2 < bags@.take(i as int).len() && #[trigger] bags@.take(
                                i as int,
                            )[p2].doc_id == d;
                        assert(bags@.take(i as int + 1)[p2].doc_id == d);
                    }
                }
            }
        }
        i += 1;
    }
    proof {
        assert(bags@.take(bags@.len() as int) =~= bags@);
    }
    out
}

impl TfidfIndex {
    /// Scores a query: splits it on whitespace, drops duplicate tokens, and
    /// returns, for every document containing at least one of the tokens,
    /// the exact term-frequency and document-frequency ingredients of its
    /// TF-IDF score. Tokens absent from the index contribute nothing.
    pub fn score(&self, query: &Vec<u8>) -> (r: ScoreResult)
        requires
            self.wf(),
        ensures
            score_result_ok(self@, dedup_first(query_tokens(query@)), r),
    {
        let qtoks = tokenize_query(query);
        let qd = dedup_words(&qtoks);
        let ghost qv = views(qd@);
        let ghost docs = self@;
        proof {
            lemma_dom_len(*self);
        }
        let ids = sorted_doc_ids(&self.document_bags);
        let mut entries: Vec<ScoreEntry> = Vec::new();
        let mut t: usize = 0;
        while t < ids.len()
            invariant
                t <= ids@.len(),
                self.wf(),
                docs == self@,
                qv == views(qd@),
                forall|p: int, q: int| 0 <= p < q < ids@.len() ==> ids@[p] < ids@[q],
                forall|d: int| has_doc(self.document_bags@, d) <==> exists|p: int|
                    0 <= p < ids@.len() && #[trigger] ids@[p] == d,
                forall|k: int|
                    0 <= k < entries@.len() ==> docs.dom().contains(
                        (#[trigger] entries@[k]).doc_id as int,
                    ),
                forall|k: int|
                    0 <= k < entries@.len() ==> term_views((#[trigger] entries@[k]).terms@)
                        == terms_spec(docs, qv, entries@[k].doc_id as int),
                forall|k: int|
                    0 <= k < entries@.len() ==> terms_spec(
                        docs,
                        qv,
                        (#[trigger] entries@[k]).doc_id as int,
                    ).len() > 0,
                forall|k: int|
                    0 <= k < entries@.len() ==> exists|u: int|
                        0 <= u < t && ids@[u] == (#[trigger] entries@[k]).doc_id,
                forall|u: int|
                    0 <= u < t && terms_spec(docs, qv, #[trigger] ids@[u] as int).len() > 0
                        ==> exists|k: int|
                        0 <= k < entries@.len() && (#[trigger] entries@[k]).doc_id == ids@[u],
                forall|k1: int, k2: int|
                    0 <= k1 < k2 < entries@.len() ==> entries@[k1].doc_id < entries@[k2].doc_id,
            decreases ids@.len() - t,
        {
            let d = ids[t];
            proof {
                assert(has_doc(self.document_bags@, d as int)) by {
                    assert(ids@[t as int] == d as int);
                }
                assert(docs.dom().contains(d as int));
            }
            let fb = find_bag(&self.document_bags, d);
            match fb {
                None => {
                    proof {
                        assert(false);
                    }
                },
                Some(bi) => {
                    proof {
                        lemma_bag_lookup(self.document_bags@, bi as int);
                        assert(docs[d as int].len == self.document_bags@[bi as int].doc_len
                            as nat);
                        assert(qv.take(0) =~= Seq::<Seq<u8>>::empty());
                    }
                    let dlen = self.document_bags[bi].doc_len;
                    let mut terms: Vec<ScoreTerm> = Vec::new();
                    let mut j: usize = 0;
                    while j < qd.len()
                        invariant
                            j <= qd@.len(),
                            self.wf(),
                            docs == self@,
                            qv == views(qd@),
                            docs.dom().contains(d as int),
                            dlen as nat == docs[d as int].len,
                            term_views(terms@) == terms_spec(docs, qv.take(j as int), d as int),
                        decreases qd@.len() - j,
                    {
                        let ghost wv = qd@[j as int]@;
                        proof {
                            assert(qv.take(j as int + 1).drop_last() =~= qv.take(j as int));
                            assert(qv.take(j as int + 1).last() == wv);
                        }
                        let fw = find_word(&self.word_indices, &qd[j]);
                        match fw {
                            None => {
                                proof {
                                    assert(stored_count(self.word_indices@, wv, d as int) == 0);
                                    assert(!docs[d as int].counts.contains_key(wv));
                                }
                            },
                            Some(wj) => {
                                proof {
                                    lemma_word_lookup(self.word_indices@, wj as int);
                                }
                                let fp = find_posting(
                                    &self.word_indices[wj].postings,
                                    d,
                                );
                                match fp {
                                    None => {
                                        proof {
                                            assert(stored_count(
                                                self.word_indices@,
                                                wv,
                                                d as int,
                                            ) == 0);
                                            assert(!docs[d as int].counts.contains_key(wv));
                                        }
                                    },
                                    Some(pj) => {
                                        let cnt = self.word_indices[wj].postings[pj].count;
                                        let dfv = self.word_indices[wj].postings.len();
                                        let ghost prev_terms = terms@;
                                        proof {
                                            assert(postings_wf(
                                                self.word_indices@[wj as int].postings@,
                                            ));
                                            lemma_posting_lookup(
                                                self.word_indices@[wj as int].postings@,
                                                pj as int,
                                            );
                                            assert(stored_count(self.word_indices@, wv, d as int)
                                                == cnt as nat);
                                            assert(cnt >= 1);
                                            assert(docs[d as int].counts.contains_key(wv));
                                            assert(docs[d as int].counts[wv] == cnt as nat);
                                            lemma_df(*self, wv);
                                            assert(dfv as nat == df_of(docs, wv));
                                        }
                                        terms.push(
                                            ScoreTerm { count: cnt, doc_len: dlen, df: dfv },
                                        );
                                        proof {
                                            assert(term_views(terms@) =~= term_views(
                                                prev_terms,
                                            ).push(
                                                (cnt as int, dlen as int, dfv as int),
                                            ));
                                        }
                                    },
                                }
                            },
                        }
                        j += 1;
                    }
                    proof {
                        assert(qv.take(qd@.len() as int) =~= qv);
                    }
                    if terms.len() > 0 {
                        let ghost prev_entries = entries@;
                        entries.push(ScoreEntry { doc_id: d, terms });
                        proof {
                            assert(terms_spec(docs, qv, d as int).len() > 0);
                            assert(forall|k: int|
                                0 <= k < prev_entries.len() ==> entries@[k] == prev_entries[k]);
                            assert(entries@.last().doc_id == d);
                            assert forall|k1: int, k2: int|
                                0 <= k1 < k2 < entries@.len() implies entries@[k1].doc_id
                                < entries@[k2].doc_id by {
                                if k2 == entries@.len() - 1 {
                                    let u = choose|u: int|
                                        0 <= u < t && ids@[u] == (#[trigger] prev_entries[k1]).doc_id;
                                    assert(ids@[u] < ids@[t as int]);
                                }
                            }
                            assert forall|k: int|
                                0 <= k < entries@.len() implies exists|u: int|
                                0 <= u < t + 1 && ids@[u] == (#[trigger] entries@[k]).doc_id by {
                                if k < entries@.len() - 1 {
                                    let u = choose|u: int|
                                        0 <= u < t && ids@[u] == (#[trigger] prev_entries[k]).doc_id;
                                    assert(0 <= u < t + 1 && ids@[u] == entries@[k].doc_id);
                                } else {
                                    assert(ids@[t as int] == entries@[k].doc_id);
                                }
                            }
                        }
                    } else {
                        proof {
                            assert(term_views(terms@).len() == 0);
                            assert(terms_spec(docs, qv, d as int).len() == 0);
                        }
                    }
                },
            }
            t += 1;
        }
        proof {
            assert forall|d2: int|
                docs.dom().contains(d2) && #[trigger] terms_spec(docs, qv, d2).len() > 0
                implies exists|k: int|
                0 <= k < entries@.len() && (#[trigger] entries@[k]).doc_id == d2 by {
                assert(has_doc(self.document_bags@, d2));
                let u = choose|u: int| 0 <= u < ids@.len() && #[trigger] ids@[u] == d2;
                assert(terms_spec(docs, qv, ids@[u] as int).len() > 0);
            }
        }
        let n = self.number_of_documents;
        ScoreResult { n_docs: n, entries }
    }
}

/// Nonempty contributions need a contained token: if a document owes any
/// score term, some query token occurs in it.
pub proof fn lemma_terms_nonempty_has_token(docs: Map<int, DocModel>, qd: Seq<Seq<u8>>, d: int)
    requires
        terms_spec(docs, qd, d).len() > 0,
    ensures
        exists|w: Seq<u8>| #[trigger] qd.contains(w) && docs[d].counts.contains_key(w),
    decreases qd.len(),
{
    if qd.len() > 0 {
        if docs[d].counts.contains_key(qd.last()) {
            assert(qd.contains(qd.last())) by {
                assert(qd[qd.len() - 1] == qd.last());
            }
        } else {
            lemma_terms_nonempty_has_token(docs, qd.drop_last(), d);
            let w = choose|w: Seq<u8>|
                #[trigger] qd.drop_last().contains(w) && docs[d].counts.contains_key(w);
            crate::tokens::lemma_contains_drop_last(qd, w);
        }
    }
}

/// A query made only of tokens absent from every document scores an empty
/// result: no document receives an entry.
pub proof fn lemma_absent_tokens_score_empty(docs: Map<int, DocModel>, q: Seq<u8>, r: ScoreResult)
    requires
        score_result_ok(docs, dedup_first(query_tokens(q)), r),
        forall|w: Seq<u8>, d: int|
            #[trigger] query_tokens(q).contains(w) && #[trigger] docs.dom().contains(d)
                ==> !docs[d].counts.contains_key(w),
    ensures
        r.entries@.len() == 0,
{
    let qd = dedup_first(query_tokens(q));
    lemma_dedup_first_props(query_tokens(q));
    if r.entries@.len() > 0 {
        let e = r.entries@[0];
        assert(terms_spec(docs, qd, e.doc_id as int).len() > 0);
        lemma_terms_nonempty_has_token(docs, qd, e.doc_id as int);
        let w = choose|w: Seq<u8>|
            #[trigger] qd.contains(w) && docs[e.doc_id as int].counts.contains_key(w);
        assert(query_tokens(q).contains(w));
        assert(docs.dom().contains(e.doc_id as int));
        assert(false);
    }
}

/// An indexed document records exactly its own tokens: together with
/// `vocabulary`'s contract, the vocabulary is the exact set of lowercased
/// maximal-letter-run tokens across the currently indexed documents.
pub proof fn lemma_doc_model_tokens(content: Seq<u8>, w: Seq<u8>)
    ensures
        doc_model(doc_tokens(content)).counts.contains_key(w) <==> doc_tokens(content).contains(w),
{
    lemma_counts_of(doc_tokens(content), w);
}

/// Last write wins: indexing the same document id twice leaves the state,
/// and hence every score drawn from it, exactly as if only the second
/// content had been indexed.
pub proof fn lemma_update_last_write_wins(
    docs: Map<int, DocModel>,
    id: int,
    c1: Seq<u8>,
    c2: Seq<u8>,
)
    ensures
        docs.insert(id, doc_model(doc_tokens(c1))).insert(id, doc_model(doc_tokens(c2)))
            == docs.insert(id, doc_model(doc_tokens(c2))),
{
    assert(docs.insert(id, doc_model(doc_tokens(c1))).insert(id, doc_model(doc_tokens(c2)))
        =~= docs.insert(id, doc_model(doc_tokens(c2))));
}

/// Removing a document id that is not indexed changes nothing: the state,
/// the document count, and every score stay as they were.
pub proof fn lemma_remove_unindexed(docs: Map<int, DocModel>, id: int)
    requires
        !docs.contains_key(id),
    ensures
        docs.remove(id) == docs,
{
    assert(docs.remove(id) =~= docs);
}

/// The abstract state after indexing a list of documents in order.
pub open spec fn indexed_docs(docs_list: Seq<(usize, Vec<u8>)>) -> Map<int, DocModel>
    decreases docs_list.len(),
{
    if docs_list.len() == 0 {
        Map::empty()
    } else {
        indexed_docs(docs_list.drop_last()).insert(
            docs_list.last().0 as int,
            doc_model(doc_tokens(docs_list.last().1@)),
        )
    }
}

/// An index holding the given documents, built by indexing them in order.
pub fn make_index(documents: Vec<(usize, Vec<u8>)>) -> (r: TfidfIndex)
    ensures
        r.wf(),
        r@ == indexed_docs(documents@),
{
    let mut r = TfidfIndex::new();
    let mut i: usize = 0;
    proof {
        assert(documents@.take(0) =~= Seq::<(usize, Vec<u8>)>::empty());
    }
    while i < documents.len()
        invariant
            i <= documents@.len(),
            r.wf(),
            r@ == indexed_docs(documents@.take(i as int)),
        decreases documents@.len() - i,
    {
        proof {
            assert(documents@.take(i as int + 1).drop_last() =~= documents@.take(i as int));
            assert(documents@.take(i as int + 1).last() == documents@[i as int]);
        }
        let id = documents[i].0;
        r.update(id, &documents[i].1);
        i += 1;
    }
    proof {
        assert(documents@.take(documents@.len() as int) =~= documents@);
    }
    r
}

} // verus!
